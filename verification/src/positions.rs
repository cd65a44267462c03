//! Where each value of a record stands in the bits of a stream, stated
//! directly as bit positions counted from where the record begins.

use vstd::prelude::*;
use vstd::arithmetic::power2::{pow2, lemma2_to64};
use crate::bits::{bits_value, lemma_bits_value_bound, lemma_single_bit};
use crate::error::Error;
use crate::layout::{Field, field_bits, field_skip, field_width, read_fields};
use crate::model::{StreamState, read_succeeds, read_value};
use crate::layout::{write_fields, embeds, layout_closed, lemma_read_optional_embed, lemma_read_fields_len, prefixed, then_read, absent};
use crate::model::read_end;
use crate::recording::{read_frames, chunk_bytes, fresh_stream, ExtraData, extra_data_empty, extra_data_from_values, extra_data_layout, lemma_extra_data_layout, opt32_from_value, Frame, frame_read, frame_from_values, frame_layout, lemma_frame_layout, extra_data_outcome, Move, PhysicsData, SpeedrunHeader, move_from_values, move_layout, move_values, opt_from_value, physics_data_from_values, physics_data_layout, physics_data_values, speedrun_header_from_values, speedrun_header_layout, speedrun_header_values};
use crate::laws::{move_fits, lemma_move_roundtrip, lemma_speedrun_header_roundtrip, lemma_physics_data_roundtrip};

verus! {

/// The bit position, counted from where field `i` begins, at which field
/// `k` of a record of plain fields begins.
pub open spec fn flat_offset(fields: Seq<Field>, i: nat, k: nat) -> nat
    decreases k - i,
{
    if k <= i {
        0
    } else {
        field_bits(fields[i as int]) + flat_offset(fields, i + 1, k)
    }
}

/// Every field from index `i` on is a plain field that fits its integer.
pub open spec fn plain_from(fields: Seq<Field>, i: nat) -> bool {
    forall|j: int|
        i <= j < fields.len() ==> match #[trigger] fields[j] {
            Field::Bits(n, w) => 1 <= n <= w,
            Field::Flag(_) => false,
        }
}

proof fn lemma_with_pos(s: StreamState, q: int)
    requires
        q >= 0,
    ensures
        s.with_pos(q).pos() == q,
        s.with_pos(q).wf(),
        s.with_pos(q).data == s.data,
{
}

/// Reading plain fields from index `i` on: the reads succeed exactly when
/// the data holds all their bits from the cursor on, and then field `k`
/// reads as the bits at its offset and the read ends past the last field.
pub proof fn lemma_flat_read(s: StreamState, fields: Seq<Field>, i: nat)
    requires
        s.wf(),
        i <= fields.len(),
        plain_from(fields, i),
    ensures
        ({
            let (r, t) = read_fields(s, fields, i);
            let total = flat_offset(fields, i, fields.len());
            &&& i < fields.len() ==> (r is Ok <==> s.pos() < s.bit_len() && s.pos() + total
                <= s.bit_len())
            &&& r matches Ok(vs) ==> {
                &&& vs.len() == fields.len() - i
                &&& t.pos() == s.pos() + total
                &&& t.data == s.data
                &&& forall|k: int|
                    i <= k < fields.len() ==> vs[k - i] == Some(
                        bits_value(s.data, s.pos() + flat_offset(fields, i, k as nat), field_bits(#[trigger] fields[k])),
                    )
            }
        }),
    decreases fields.len() - i,
{
    reveal(read_fields);
    if i < fields.len() {
        let f = fields[i as int];
        assert(match fields[i as int] {
            Field::Bits(n, w) => 1 <= n <= w,
            Field::Flag(_) => false,
        });
        let n = field_bits(f);
        let w = field_width(f);
        let p = s.pos();
        let t1 = s.with_pos(p + n);
        lemma_with_pos(s, p + n);
        assert(field_skip(fields, i as int, read_value(s, n)) == 0);
        lemma_flat_read(t1, fields, i + 1);
        let total = flat_offset(fields, i, fields.len());
        assert(total == n + flat_offset(fields, i + 1, fields.len()));
        if i + 1 < fields.len() {
            assert(match fields[(i + 1) as int] {
                Field::Bits(n, w) => 1 <= n <= w,
                Field::Flag(_) => false,
            });
            assert(flat_offset(fields, i + 1, fields.len()) >= field_bits(fields[(i + 1) as int]));
        } else {
            assert(flat_offset(fields, i + 1, fields.len()) == 0);
            assert(read_fields(t1, fields, i + 1).0 == Ok::<Seq<Option<nat>>, Error>(Seq::empty()));
        }
        if read_succeeds(s, n, w) {
            let rest = read_fields(t1, fields, i + 1);
            assert(read_fields(s, fields, i).1 == rest.1);
            if let Ok(rvs) = rest.0 {
                let vs = seq![Some(read_value(s, n))] + Seq::new(0, |j: int| None::<nat>) + rvs;
                assert(read_fields(s, fields, i).0 == Ok::<Seq<Option<nat>>, Error>(vs));
                assert forall|k: int| i <= k < fields.len() implies vs[k - i] == Some(
                    bits_value(s.data, s.pos() + flat_offset(fields, i, k as nat), field_bits(#[trigger] fields[k])),
                ) by {
                    if k > i {
                        assert(flat_offset(fields, i, k as nat) == n + flat_offset(fields, i + 1, k as nat));
                        assert(vs[k - i] == rvs[k - (i + 1)]);
                    } else {
                        assert(flat_offset(fields, i, i) == 0);
                    }
                }
            }
            if i + 1 == fields.len() {
                assert(flat_offset(fields, i + 1, fields.len()) == 0);
            }
        }
    }
}

proof fn lemma_flat_offset_step(fields: Seq<Field>, i: nat, k: nat)
    requires
        i < k,
    ensures
        flat_offset(fields, i, k) == flat_offset(fields, i, (k - 1) as nat) + field_bits(
            fields[k - 1],
        ),
    decreases k - i,
{
    if i + 1 < k {
        lemma_flat_offset_step(fields, i + 1, k);
    } else {
        assert(flat_offset(fields, i + 1, k) == 0);
    }
}

/// The offset of each field up to `m` is the sum of the bits before it.
proof fn lemma_flat_offsets(fields: Seq<Field>, m: nat)
    ensures
        flat_offset(fields, 0, 0) == 0,
        forall|k: nat|
            0 < k <= m ==> #[trigger] flat_offset(fields, 0, k) == flat_offset(fields, 0, (k - 1) as nat)
                + field_bits(fields[k - 1]),
{
    assert forall|k: nat| 0 < k <= m implies #[trigger] flat_offset(fields, 0, k) == flat_offset(
        fields,
        0,
        (k - 1) as nat,
    ) + field_bits(fields[k - 1]) by {
        lemma_flat_offset_step(fields, 0, k);
    }
}

/// Reading a speedrun header succeeds exactly when the data holds its 240
/// bits from the cursor on. It then takes, in this order and each least
/// significant bit first: the 8-bit major and minor versions, the 64-bit
/// reference system time and epoch offset, the 16-bit horizontal and then
/// vertical resolution, and the 32-bit patterns of the field of view and
/// the frame rate; and the read ends past them.
pub proof fn lemma_speedrun_header_read_bits(s: StreamState)
    requires
        s.wf(),
    ensures
        ({
            let (r, t) = read_fields(s, speedrun_header_layout(), 0);
            let d = s.data;
            let p = s.pos();
            &&& (r is Ok <==> p + 240 <= s.bit_len())
            &&& r matches Ok(vs) ==> {
                let h = speedrun_header_from_values(vs);
                &&& t.pos() == p + 240
                &&& t.data == d
                &&& h.version_major == bits_value(d, p, 8)
                &&& h.version_minor == bits_value(d, p + 8, 8)
                &&& h.reference_system_time == bits_value(d, p + 16, 64)
                &&& h.epoch_offset == bits_value(d, p + 80, 64)
                &&& h.resolution_horz == bits_value(d, p + 144, 16)
                &&& h.resolution_vert == bits_value(d, p + 160, 16)
                &&& h.fov == bits_value(d, p + 176, 32)
                &&& h.fps == bits_value(d, p + 208, 32)
            }
        }),
{
    let l = speedrun_header_layout();
    assert(plain_from(l, 0));
    lemma_flat_read(s, l, 0);
    lemma_flat_offsets(l, 8);
    assert(flat_offset(l, 0, 8) == 240);
    assert(flat_offset(l, 0, 4) == 144);
    let (r, t) = read_fields(s, l, 0);
    if let Ok(vs) = r {
        let d = s.data;
        let p = s.pos();
        lemma2_to64();
        assert(vs[0] == Some(bits_value(d, p, field_bits(l[0]))));
        assert(vs[1] == Some(bits_value(d, p + 8, field_bits(l[1]))));
        assert(vs[2] == Some(bits_value(d, p + 16, field_bits(l[2]))));
        assert(vs[3] == Some(bits_value(d, p + 80, field_bits(l[3]))));
        assert(vs[4] == Some(bits_value(d, p + 144, field_bits(l[4]))));
        assert(vs[5] == Some(bits_value(d, p + 160, field_bits(l[5]))));
        assert(vs[6] == Some(bits_value(d, p + 176, field_bits(l[6]))));
        assert(vs[7] == Some(bits_value(d, p + 208, field_bits(l[7]))));
        lemma_bits_value_bound(d, p, 8);
        lemma_bits_value_bound(d, p + 8, 8);
        lemma_bits_value_bound(d, p + 16, 64);
        lemma_bits_value_bound(d, p + 80, 64);
        lemma_bits_value_bound(d, p + 144, 16);
        lemma_bits_value_bound(d, p + 160, 16);
        lemma_bits_value_bound(d, p + 176, 32);
        lemma_bits_value_bound(d, p + 208, 32);
    }
}

/// Writing a speedrun header at the appendable end of a stream puts, from
/// the cursor on and each least significant bit first: the 8-bit major and
/// minor versions, the 64-bit reference system time and epoch offset, the
/// 16-bit horizontal and then vertical resolution, and the 32-bit patterns
/// of the field of view and the frame rate, 240 bits in all.
pub proof fn lemma_speedrun_header_write_bits(s: StreamState, h: SpeedrunHeader)
    requires
        s.at_end(),
    ensures
        ({
            let (ok, w) = write_fields(s, speedrun_header_layout(), speedrun_header_values(h), 0);
            let d = w.data;
            let p = s.pos();
            &&& ok
            &&& w.pos() == p + 240
            &&& bits_value(d, p, 8) == h.version_major
            &&& bits_value(d, p + 8, 8) == h.version_minor
            &&& bits_value(d, p + 16, 64) == h.reference_system_time
            &&& bits_value(d, p + 80, 64) == h.epoch_offset
            &&& bits_value(d, p + 144, 16) == h.resolution_horz
            &&& bits_value(d, p + 160, 16) == h.resolution_vert
            &&& bits_value(d, p + 176, 32) == h.fov
            &&& bits_value(d, p + 208, 32) == h.fps
        }),
{
    lemma_speedrun_header_roundtrip(s, h);
    let w = write_fields(s, speedrun_header_layout(), speedrun_header_values(h), 0).1;
    lemma_speedrun_header_read_bits(w.with_cursor_of(s));
}

/// Reading physics data succeeds exactly when the data holds its 576 bits
/// from the cursor on. It then takes nine 64-bit patterns, each least
/// significant bit first, in this order: the position's x, y and z, the
/// velocity's x, y and z, and the angular velocity's x, y and z; and the
/// read ends past them.
pub proof fn lemma_physics_data_read_bits(s: StreamState)
    requires
        s.wf(),
    ensures
        ({
            let (r, t) = read_fields(s, physics_data_layout(), 0);
            let d = s.data;
            let p = s.pos();
            &&& (r is Ok <==> p + 576 <= s.bit_len())
            &&& r matches Ok(vs) ==> {
                let x = physics_data_from_values(vs);
                &&& t.pos() == p + 576
                &&& t.data == d
                &&& x.position_x == bits_value(d, p, 64)
                &&& x.position_y == bits_value(d, p + 64, 64)
                &&& x.position_z == bits_value(d, p + 128, 64)
                &&& x.velocity_x == bits_value(d, p + 192, 64)
                &&& x.velocity_y == bits_value(d, p + 256, 64)
                &&& x.velocity_z == bits_value(d, p + 320, 64)
                &&& x.angular_velocity_x == bits_value(d, p + 384, 64)
                &&& x.angular_velocity_y == bits_value(d, p + 448, 64)
                &&& x.angular_velocity_z == bits_value(d, p + 512, 64)
            }
        }),
{
    let l = physics_data_layout();
    assert(plain_from(l, 0));
    lemma_flat_read(s, l, 0);
    lemma_flat_offsets(l, 9);
    assert(flat_offset(l, 0, 9) == 576);
    let (r, t) = read_fields(s, l, 0);
    if let Ok(vs) = r {
        let d = s.data;
        let p = s.pos();
        lemma2_to64();
        assert forall|k: int| 0 <= k < 9 implies vs[k] == Some(bits_value(d, p + 64 * k, 64))
            && bits_value(d, p + 64 * k, 64) < pow2(64) by {
            assert(l[k] == Field::Bits(64, 64));
            lemma_bits_value_bound(d, p + 64 * k, 64);
        }
        assert(vs[0] == Some(bits_value(d, p + 64 * 0, 64)));
        assert(vs[1] == Some(bits_value(d, p + 64 * 1, 64)));
        assert(vs[2] == Some(bits_value(d, p + 64 * 2, 64)));
        assert(vs[3] == Some(bits_value(d, p + 64 * 3, 64)));
        assert(vs[4] == Some(bits_value(d, p + 64 * 4, 64)));
        assert(vs[5] == Some(bits_value(d, p + 64 * 5, 64)));
        assert(vs[6] == Some(bits_value(d, p + 64 * 6, 64)));
        assert(vs[7] == Some(bits_value(d, p + 64 * 7, 64)));
        assert(vs[8] == Some(bits_value(d, p + 64 * 8, 64)));
    }
}

/// Writing physics data at the appendable end of a stream puts, from the
/// cursor on, nine 64-bit patterns, each least significant bit first, in
/// this order: the position's x, y and z, the velocity's x, y and z, and
/// the angular velocity's x, y and z, 576 bits in all.
pub proof fn lemma_physics_data_write_bits(s: StreamState, x: PhysicsData)
    requires
        s.at_end(),
    ensures
        ({
            let (ok, w) = write_fields(s, physics_data_layout(), physics_data_values(x), 0);
            let d = w.data;
            let p = s.pos();
            &&& ok
            &&& w.pos() == p + 576
            &&& bits_value(d, p, 64) == x.position_x
            &&& bits_value(d, p + 64, 64) == x.position_y
            &&& bits_value(d, p + 128, 64) == x.position_z
            &&& bits_value(d, p + 192, 64) == x.velocity_x
            &&& bits_value(d, p + 256, 64) == x.velocity_y
            &&& bits_value(d, p + 320, 64) == x.velocity_z
            &&& bits_value(d, p + 384, 64) == x.angular_velocity_x
            &&& bits_value(d, p + 448, 64) == x.angular_velocity_y
            &&& bits_value(d, p + 512, 64) == x.angular_velocity_z
        }),
{
    lemma_physics_data_roundtrip(s, x);
    let w = write_fields(s, physics_data_layout(), physics_data_values(x), 0).1;
    lemma_physics_data_read_bits(w.with_cursor_of(s));
}

/// The optional 16-bit angle at bit `p`: a flag and, when it is set, the
/// angle's 16 bits after it.
pub open spec fn opt_angle_at(d: Seq<u8>, p: int) -> Option<u64> {
    if bits_value(d, p, 1) == 1 {
        Some(bits_value(d, p + 1, 16) as u64)
    } else {
        None
    }
}

/// The number of bits an optional angle takes: its flag, and 16 more when
/// it is present.
pub open spec fn opt_angle_bits(o: Option<u64>) -> int {
    if o is Some {
        17
    } else {
        1
    }
}

proof fn lemma_read_opt_angle(s: StreamState, fields: Seq<Field>, i: nat)
    requires
        s.wf(),
        i + 2 <= fields.len(),
        fields[i as int] == Field::Flag(1),
        fields[(i + 1) as int] == Field::Bits(16, 64),
        read_fields(s, fields, i).0 is Ok,
    ensures
        ({
            let (r, e) = read_fields(s, fields, i);
            let vs = r->Ok_0;
            let o = opt_angle_at(s.data, s.pos());
            let t = s.with_pos(s.pos() + opt_angle_bits(o));
            &&& vs.len() >= 2
            &&& opt_from_value(vs[1]) == o
            &&& t.wf()
            &&& t.pos() == s.pos() + opt_angle_bits(o)
            &&& t.data == s.data
            &&& read_fields(t, fields, i + 2) == (Ok::<Seq<Option<nat>>, Error>(vs.skip(2)), e)
        }),
{
    let d = s.data;
    let p = s.pos();
    let (r, e) = read_fields(s, fields, i);
    let vs = r->Ok_0;
    lemma_single_bit(d, p);
    let v = read_value(s, 1);
    let s1 = s.with_pos(p + 1);
    lemma_with_pos(s, p + 1);
    assert(read_succeeds(s, 1, 8)) by {
        reveal(read_fields);
    }
    if v == 1 {
        assert(field_skip(fields, i as int, v) == 0);
        assert(read_fields(s, fields, i) == (
            match read_fields(s1, fields, i + 1).0 {
                Ok(rv) => Ok::<Seq<Option<nat>>, Error>(seq![Some(v)] + Seq::new(0, |j: int| None::<nat>) + rv),
                Err(x) => Err(x),
            },
            read_fields(s1, fields, i + 1).1,
        )) by {
            reveal(read_fields);
        }
        let s2 = s.with_pos(p + 17);
        lemma_with_pos(s, p + 17);
        assert(s1.with_pos(s1.pos() + 16) == s2);
        assert(field_skip(fields, (i + 1) as int, read_value(s1, 16)) == 0);
        assert(read_succeeds(s1, 16, 64)) by {
            reveal(read_fields);
        }
        assert(read_fields(s1, fields, i + 1) == (
            match read_fields(s2, fields, i + 2).0 {
                Ok(rv) => Ok::<Seq<Option<nat>>, Error>(seq![Some(read_value(s1, 16))] + Seq::new(0, |j: int| None::<nat>) + rv),
                Err(x) => Err(x),
            },
            read_fields(s2, fields, i + 2).1,
        )) by {
            reveal(read_fields);
        }
        let rv = read_fields(s2, fields, i + 2).0->Ok_0;
        assert(vs =~= seq![Some(1nat), Some(read_value(s1, 16))] + rv);
        assert(vs.skip(2) =~= rv);
        lemma_bits_value_bound(d, p + 1, 16);
        lemma2_to64();
    } else {
        assert(v == 0);
        assert(field_skip(fields, i as int, v) == 1);
        assert(read_fields(s, fields, i) == (
            match read_fields(s1, fields, i + 2).0 {
                Ok(rv) => Ok::<Seq<Option<nat>>, Error>(seq![Some(v)] + Seq::new(1, |j: int| None::<nat>) + rv),
                Err(x) => Err(x),
            },
            read_fields(s1, fields, i + 2).1,
        )) by {
            reveal(read_fields);
        }
        let rv = read_fields(s1, fields, i + 2).0->Ok_0;
        assert(vs =~= seq![Some(0nat), None] + rv);
        assert(vs.skip(2) =~= rv);
    }
}

/// A move read from the stream takes, from the cursor on and in this
/// order: the optional yaw, then the optional pitch, then the optional
/// roll, each a flag and, when it is set, the angle's 16 bits; then the
/// 6-bit x, y and z movement axes; then the free-look flag; then the six
/// trigger flags. The read ends past the last trigger flag.
pub proof fn lemma_move_read_bits(s: StreamState)
    requires
        s.wf(),
        read_fields(s, move_layout(), 0).0 is Ok,
    ensures
        ({
            let (r, t) = read_fields(s, move_layout(), 0);
            let m = move_from_values(r->Ok_0);
            let d = s.data;
            let p1 = s.pos() + opt_angle_bits(m.yaw);
            let p2 = p1 + opt_angle_bits(m.pitch);
            let p3 = p2 + opt_angle_bits(m.roll);
            &&& m.yaw == opt_angle_at(d, s.pos())
            &&& m.pitch == opt_angle_at(d, p1)
            &&& m.roll == opt_angle_at(d, p2)
            &&& m.mx == bits_value(d, p3, 6)
            &&& m.my == bits_value(d, p3 + 6, 6)
            &&& m.mz == bits_value(d, p3 + 12, 6)
            &&& m.freelook == (bits_value(d, p3 + 18, 1) == 1)
            &&& forall|k: int| 0 <= k < 6 ==> m.triggers@[k] == (bits_value(d, p3 + 19 + k, 1) == 1)
            &&& t.pos() == p3 + 25
            &&& t.data == d
        }),
{
    let l = move_layout();
    let (r, e) = read_fields(s, l, 0);
    let vs = r->Ok_0;
    let d = s.data;
    lemma_read_opt_angle(s, l, 0);
    let t1 = s.with_pos(s.pos() + opt_angle_bits(opt_angle_at(d, s.pos())));
    let vs1 = vs.skip(2);
    lemma_read_opt_angle(t1, l, 2);
    let t2 = t1.with_pos(t1.pos() + opt_angle_bits(opt_angle_at(d, t1.pos())));
    let vs2 = vs1.skip(2);
    lemma_read_opt_angle(t2, l, 4);
    let t3 = t2.with_pos(t2.pos() + opt_angle_bits(opt_angle_at(d, t2.pos())));
    let vs3 = vs2.skip(2);
    assert(vs1[1] == vs[3]);
    assert(vs2[1] == vs[5]);
    assert(plain_from(l, 6));
    lemma_flat_read(t3, l, 6);
    lemma_flat_offset_step(l, 6, 16);
    lemma_flat_offset_step(l, 6, 15);
    lemma_flat_offset_step(l, 6, 14);
    lemma_flat_offset_step(l, 6, 13);
    lemma_flat_offset_step(l, 6, 12);
    lemma_flat_offset_step(l, 6, 11);
    lemma_flat_offset_step(l, 6, 10);
    lemma_flat_offset_step(l, 6, 9);
    lemma_flat_offset_step(l, 6, 8);
    lemma_flat_offset_step(l, 6, 7);
    assert(flat_offset(l, 6, 6) == 0);
    assert(flat_offset(l, 6, 16) == 25);
    let q = t3.pos();
    assert forall|k: int| 6 <= k < 16 implies vs[k] == vs3[k - 6] by {
        assert(vs3[k - 6] == vs2[k - 4]);
        assert(vs2[k - 4] == vs1[k - 2]);
        assert(vs1[k - 2] == vs[k]);
    }
    assert(vs[6] == Some(bits_value(d, q, 6)));
    assert(vs[7] == Some(bits_value(d, q + 6, 6)));
    assert(vs[8] == Some(bits_value(d, q + 12, 6)));
    assert(vs[9] == Some(bits_value(d, q + 18, 1)));
    lemma2_to64();
    lemma_bits_value_bound(d, q, 6);
    lemma_bits_value_bound(d, q + 6, 6);
    lemma_bits_value_bound(d, q + 12, 6);
    let m = move_from_values(vs);
    assert forall|k: int| 0 <= k < 6 implies m.triggers@[k] == (bits_value(d, q + 19 + k, 1) == 1) by {
        assert(flat_offset(l, 6, (10 + k) as nat) == 19 + k);
        assert(l[10 + k] == Field::Bits(1, 8));
        assert(vs[10 + k] == Some(bits_value(d, q + 19 + k, 1)));
        assert(m.triggers@[k] == (vs[10 + k] == Some(1nat)));
    }
}

/// Writing a move that fits at the appendable end of a stream puts, from
/// the cursor on and in this order: the optional yaw, then the optional
/// pitch, then the optional roll, each a flag and, when the angle is
/// present, its 16 bits; then the 6-bit x, y and z movement axes; then the
/// free-look flag; then the six trigger flags. The cursor ends past the
/// last trigger flag.
pub proof fn lemma_move_write_bits(s: StreamState, m: Move)
    requires
        s.at_end(),
        move_fits(m),
    ensures
        ({
            let (ok, w) = write_fields(s, move_layout(), move_values(m), 0);
            let d = w.data;
            let p1 = s.pos() + opt_angle_bits(m.yaw);
            let p2 = p1 + opt_angle_bits(m.pitch);
            let p3 = p2 + opt_angle_bits(m.roll);
            &&& ok
            &&& opt_angle_at(d, s.pos()) == m.yaw
            &&& opt_angle_at(d, p1) == m.pitch
            &&& opt_angle_at(d, p2) == m.roll
            &&& bits_value(d, p3, 6) == m.mx
            &&& bits_value(d, p3 + 6, 6) == m.my
            &&& bits_value(d, p3 + 12, 6) == m.mz
            &&& (bits_value(d, p3 + 18, 1) == 1) == m.freelook
            &&& forall|k: int| 0 <= k < 6 ==> (bits_value(d, p3 + 19 + k, 1) == 1) == m.triggers@[k]
            &&& w.pos() == p3 + 25
        }),
{
    lemma_move_roundtrip(s, m);
    let w = write_fields(s, move_layout(), move_values(m), 0).1;
    lemma_move_read_bits(w.with_cursor_of(s));
}

/// The optional run of `n` bits at bit `p`: a flag and, when it is set,
/// the value of the `n` bits after it.
pub open spec fn opt_bits_at(d: Seq<u8>, p: int, n: nat) -> Option<nat> {
    if bits_value(d, p, 1) == 1 {
        Some(bits_value(d, p + 1, n))
    } else {
        None
    }
}

proof fn lemma_read_opt_bits(s: StreamState, fields: Seq<Field>, i: nat, n: nat, w: nat)
    requires
        s.wf(),
        i + 2 <= fields.len(),
        fields[i as int] == Field::Flag(1),
        fields[(i + 1) as int] == Field::Bits(n, w),
        read_fields(s, fields, i).0 is Ok,
    ensures
        ({
            let (r, e) = read_fields(s, fields, i);
            let vs = r->Ok_0;
            let o = opt_bits_at(s.data, s.pos(), n);
            let q = s.pos() + 1 + if o is Some { n as int } else { 0 };
            let t = s.with_pos(q);
            &&& vs.len() >= 2
            &&& vs[0] == Some(bits_value(s.data, s.pos(), 1))
            &&& bits_value(s.data, s.pos(), 1) <= 1
            &&& vs[1] == o
            &&& t.wf()
            &&& t.pos() == q
            &&& t.data == s.data
            &&& read_fields(t, fields, i + 2) == (Ok::<Seq<Option<nat>>, Error>(vs.skip(2)), e)
        }),
{
    let d = s.data;
    let p = s.pos();
    let (r, e) = read_fields(s, fields, i);
    let vs = r->Ok_0;
    lemma_single_bit(d, p);
    let v = read_value(s, 1);
    let s1 = s.with_pos(p + 1);
    lemma_with_pos(s, p + 1);
    assert(read_succeeds(s, 1, 8)) by {
        reveal(read_fields);
    }
    if v == 1 {
        assert(field_skip(fields, i as int, v) == 0);
        assert(read_fields(s, fields, i) == (
            match read_fields(s1, fields, i + 1).0 {
                Ok(rv) => Ok::<Seq<Option<nat>>, Error>(seq![Some(v)] + Seq::new(0, |j: int| None::<nat>) + rv),
                Err(x) => Err(x),
            },
            read_fields(s1, fields, i + 1).1,
        )) by {
            reveal(read_fields);
        }
        let s2 = s.with_pos(p + 1 + n);
        lemma_with_pos(s, p + 1 + n);
        assert(s1.with_pos(s1.pos() + n) == s2);
        assert(field_skip(fields, (i + 1) as int, read_value(s1, n)) == 0);
        assert(read_succeeds(s1, n, w)) by {
            reveal(read_fields);
        }
        assert(read_fields(s1, fields, i + 1) == (
            match read_fields(s2, fields, i + 2).0 {
                Ok(rv) => Ok::<Seq<Option<nat>>, Error>(seq![Some(read_value(s1, n))] + Seq::new(0, |j: int| None::<nat>) + rv),
                Err(x) => Err(x),
            },
            read_fields(s2, fields, i + 2).1,
        )) by {
            reveal(read_fields);
        }
        let rv = read_fields(s2, fields, i + 2).0->Ok_0;
        assert(vs =~= seq![Some(1nat), Some(read_value(s1, n))] + rv);
        assert(vs.skip(2) =~= rv);
    } else {
        assert(v == 0);
        assert(field_skip(fields, i as int, v) == 1);
        assert(read_fields(s, fields, i) == (
            match read_fields(s1, fields, i + 2).0 {
                Ok(rv) => Ok::<Seq<Option<nat>>, Error>(seq![Some(v)] + Seq::new(1, |j: int| None::<nat>) + rv),
                Err(x) => Err(x),
            },
            read_fields(s1, fields, i + 2).1,
        )) by {
            reveal(read_fields);
        }
        let rv = read_fields(s1, fields, i + 2).0->Ok_0;
        assert(vs =~= seq![Some(0nat), None] + rv);
        assert(vs.skip(2) =~= rv);
    }
}

/// Reading an optional inner record at field `i`: a flag, and when it is
/// set the inner record read from the bit after it, then the rest.
proof fn lemma_read_opt_record(s: StreamState, fields: Seq<Field>, i: nat, inner: Seq<Field>)
    requires
        s.wf(),
        i < fields.len(),
        fields[i as int] == Field::Flag(inner.len()),
        embeds(fields, i + 1, inner),
        layout_closed(inner),
        read_fields(s, fields, i).0 is Ok,
    ensures
        ({
            let (r, e) = read_fields(s, fields, i);
            let vs = r->Ok_0;
            let d = s.data;
            let p = s.pos();
            let hs = s.with_pos(p + 1);
            let (ir, it) = read_fields(hs, inner, 0);
            let k = inner.len();
            &&& hs.wf()
            &&& hs.pos() == p + 1
            &&& hs.data == d
            &&& it.wf()
            &&& it.data == d
            &&& vs.len() >= 1 + k
            &&& bits_value(d, p, 1) <= 1
            &&& vs[0] == Some(bits_value(d, p, 1))
            &&& bits_value(d, p, 1) == 1 ==> {
                &&& ir is Ok
                &&& vs.subrange(1, 1 + k as int) == ir->Ok_0
                &&& read_fields(it, fields, i + 1 + k) == (Ok::<Seq<Option<nat>>, Error>(vs.skip(1 + k as int)), e)
            }
            &&& bits_value(d, p, 1) == 0 ==> read_fields(hs, fields, i + 1 + k) == (
                Ok::<Seq<Option<nat>>, Error>(vs.skip(1 + k as int)),
                e,
            )
        }),
{
    let d = s.data;
    let p = s.pos();
    let k = inner.len();
    let (r, e) = read_fields(s, fields, i);
    let vs = r->Ok_0;
    lemma_single_bit(d, p);
    let hs = s.with_pos(p + 1);
    lemma_with_pos(s, p + 1);
    let t = s.with_pos(read_end(s, 1, 8));
    lemma_with_pos(s, read_end(s, 1, 8));
    lemma_read_optional_embed(s, t, fields, i, inner);
    lemma_read_fields_len(hs, inner, 0);
    if !read_succeeds(s, 1, 8) {
        assert(false);
    }
    assert(t == hs);
    if read_value(s, 1) == 0 {
        let rest = read_fields(hs, fields, i + 1 + k);
        let rv = rest.0->Ok_0;
        assert(vs =~= seq![Some(0nat)] + absent(k) + rv);
        assert(vs.skip(1 + k as int) =~= rv);
    } else {
        let (ir, it) = read_fields(hs, inner, 0);
        let iv = ir->Ok_0;
        let rest = read_fields(it, fields, i + 1 + k);
        let rv = rest.0->Ok_0;
        assert(vs =~= seq![Some(1nat)] + (iv + rv));
        assert(vs.subrange(1, 1 + k as int) =~= iv);
        assert(vs.skip(1 + k as int) =~= rv);
    }
}

/// The optional 24-bit time at bit `p`: a flag and, when it is set, the
/// time's 24 bits after it.
pub open spec fn opt_time_at(d: Seq<u8>, p: int) -> Option<u32> {
    if bits_value(d, p, 1) == 1 {
        Some(bits_value(d, p + 1, 24) as u32)
    } else {
        None
    }
}

/// The number of bits an optional time takes: its flag, and 24 more when
/// it is present.
pub open spec fn opt_time_bits(o: Option<u32>) -> int {
    if o is Some {
        25
    } else {
        1
    }
}

/// Extra data read from the stream takes, from the cursor on and in this
/// order: a flag and, when it is set, a speedrun header read from the bit
/// after it; the optional 24-bit system time delta; the optional 24-bit
/// elapsed game time; and a flag and, when it is set, physics data read
/// from the bit after it. It is empty exactly when all four are absent.
pub proof fn lemma_extra_data_read_bits(s: StreamState)
    requires
        s.wf(),
        read_fields(s, extra_data_layout(), 0).0 is Ok,
    ensures
        ({
            let (r, t) = read_fields(s, extra_data_layout(), 0);
            let vs = r->Ok_0;
            let x = extra_data_from_values(vs);
            let d = s.data;
            let p = s.pos();
            let hr = read_fields(s.with_pos(p + 1), speedrun_header_layout(), 0).0;
            let q1 = p + 1 + if x.speedrun_header is Some { 240int } else { 0 };
            let q2 = q1 + opt_time_bits(x.sys_time_delta);
            let q3 = q2 + opt_time_bits(x.game_elapsed);
            let pr = read_fields(s.with_pos(q3 + 1), physics_data_layout(), 0).0;
            &&& x.speedrun_header == if bits_value(d, p, 1) == 1 {
                Some(speedrun_header_from_values(hr->Ok_0))
            } else {
                None
            }
            &&& x.speedrun_header is Some ==> hr is Ok
            &&& x.sys_time_delta == opt_time_at(d, q1)
            &&& x.game_elapsed == opt_time_at(d, q2)
            &&& x.physics_data == if bits_value(d, q3, 1) == 1 {
                Some(physics_data_from_values(pr->Ok_0))
            } else {
                None
            }
            &&& x.physics_data is Some ==> pr is Ok
            &&& t.pos() == q3 + 1 + if x.physics_data is Some { 576int } else { 0 }
            &&& t.data == d
            &&& (extra_data_empty(vs) <==> x.speedrun_header is None && x.sys_time_delta is None
                && x.game_elapsed is None && x.physics_data is None)
        }),
{
    let l = extra_data_layout();
    lemma_extra_data_layout();
    let (r, e) = read_fields(s, l, 0);
    let vs = r->Ok_0;
    let d = s.data;
    let p = s.pos();
    lemma2_to64();
    // the speedrun header
    lemma_read_opt_record(s, l, 0, speedrun_header_layout());
    let hs = s.with_pos(p + 1);
    let (hr, ht) = read_fields(hs, speedrun_header_layout(), 0);
    lemma_speedrun_header_read_bits(hs);
    let s1 = if bits_value(d, p, 1) == 1 { ht } else { hs };
    let q1 = s1.pos();
    let v1 = vs.skip(9);
    assert(read_fields(s1, l, 9) == (Ok::<Seq<Option<nat>>, Error>(v1), e));
    if bits_value(d, p, 1) == 1 {
        assert(vs.subrange(1, 9) == hr->Ok_0);
    }
    // the two times
    lemma_read_opt_bits(s1, l, 9, 24, 32);
    let o1 = opt_bits_at(d, q1, 24);
    let s2 = s1.with_pos(q1 + 1 + if o1 is Some { 24int } else { 0 });
    let q2 = s2.pos();
    let v2 = v1.skip(2);
    lemma_read_opt_bits(s2, l, 11, 24, 32);
    let o2 = opt_bits_at(d, q2, 24);
    let s3 = s2.with_pos(q2 + 1 + if o2 is Some { 24int } else { 0 });
    let q3 = s3.pos();
    let v3 = v2.skip(2);
    assert(vs[9] == v1[0]);
    assert(vs[10] == v1[1]);
    assert(vs[11] == v2[0]);
    assert(vs[12] == v2[1]);
    lemma_single_bit(d, q1);
    lemma_single_bit(d, q2);
    lemma_bits_value_bound(d, q1 + 1, 24);
    lemma_bits_value_bound(d, q2 + 1, 24);
    // the physics data
    lemma_read_opt_record(s3, l, 13, physics_data_layout());
    let ps = s3.with_pos(q3 + 1);
    let (pr, pt) = read_fields(ps, physics_data_layout(), 0);
    lemma_physics_data_read_bits(ps);
    assert(vs[13] == v3[0]);
    assert(v3.len() >= 10);
    if bits_value(d, q3, 1) == 1 {
        assert(vs.subrange(14, 23) =~= v3.subrange(1, 10));
        assert(read_fields(pt, l, 23) == (Ok::<Seq<Option<nat>>, Error>(v3.skip(10)), e));
        assert(read_fields(pt, l, 23) == (Ok::<Seq<Option<nat>>, Error>(Seq::empty()), pt)) by {
            reveal(read_fields);
        }
    } else {
        assert(read_fields(ps, l, 23) == (Ok::<Seq<Option<nat>>, Error>(Seq::empty()), ps)) by {
            reveal(read_fields);
        }
    }
    assert(vs[0] == Some(bits_value(d, p, 1)));
    lemma_single_bit(d, p);
    lemma_single_bit(d, q3);
}

/// A frame read from the stream takes, from the cursor on and in this
/// order: a flag and, when it is set, the first move read from the bit
/// after it; a flag and, when it is set, the second move read from the bit
/// after that; the 10-bit time delta; and then extra data, which the frame
/// keeps only when it reads and has some part present. The read ends where
/// the extra data's read ends.
pub proof fn lemma_frame_read_bits(s: StreamState)
    requires
        s.wf(),
        frame_read(s).0 is Ok,
    ensures
        ({
            let f = frame_read(s).0->Ok_0;
            let d = s.data;
            let p = s.pos();
            let m0 = read_fields(s.with_pos(p + 1), move_layout(), 0);
            let q1 = if f.moves@[0] is Some { m0.1.pos() } else { p + 1 };
            let m1 = read_fields(s.with_pos(q1 + 1), move_layout(), 0);
            let q2 = if f.moves@[1] is Some { m1.1.pos() } else { q1 + 1 };
            let x = read_fields(s.with_pos(q2 + 10), extra_data_layout(), 0);
            &&& f.moves@[0] == if bits_value(d, p, 1) == 1 {
                Some(move_from_values(m0.0->Ok_0))
            } else {
                None
            }
            &&& f.moves@[0] is Some ==> m0.0 is Ok
            &&& f.moves@[1] == if bits_value(d, q1, 1) == 1 {
                Some(move_from_values(m1.0->Ok_0))
            } else {
                None
            }
            &&& f.moves@[1] is Some ==> m1.0 is Ok
            &&& f.delta == bits_value(d, q2, 10)
            &&& f.extra_data == extra_data_outcome(x.0)
            &&& frame_read(s).1 == x.1
        }),
{
    let l = frame_layout();
    lemma_frame_layout();
    let (r, e) = read_fields(s, l, 0);
    let vs = r->Ok_0;
    let d = s.data;
    let p = s.pos();
    lemma2_to64();
    lemma_read_opt_record(s, l, 0, move_layout());
    let hs = s.with_pos(p + 1);
    let (m0r, m0t) = read_fields(hs, move_layout(), 0);
    let s1 = if bits_value(d, p, 1) == 1 { m0t } else { hs };
    let q1 = s1.pos();
    let v1 = vs.skip(17);
    assert(read_fields(s1, l, 17) == (Ok::<Seq<Option<nat>>, Error>(v1), e));
    lemma_read_opt_record(s1, l, 17, move_layout());
    let hs1 = s1.with_pos(q1 + 1);
    assert(hs1 == s.with_pos(q1 + 1));
    let (m1r, m1t) = read_fields(hs1, move_layout(), 0);
    let s2 = if bits_value(d, q1, 1) == 1 { m1t } else { hs1 };
    let q2 = s2.pos();
    let v2 = v1.skip(17);
    assert(read_fields(s2, l, 34) == (Ok::<Seq<Option<nat>>, Error>(v2), e));
    assert(plain_from(l, 34));
    lemma_flat_read(s2, l, 34);
    assert(flat_offset(l, 34, 34) == 0);
    assert(flat_offset(l, 35, 35) == 0);
    assert(flat_offset(l, 34, 35) == 10);
    assert(v2[0] == Some(bits_value(d, q2, 10)));
    lemma_bits_value_bound(d, q2, 10);
    assert(vs[34] == v2[0]);
    assert(vs[17] == v1[0]);
    if bits_value(d, p, 1) == 1 {
        assert(vs.subrange(1, 17) == m0r->Ok_0);
    }
    if bits_value(d, q1, 1) == 1 {
        assert(vs.subrange(18, 34) =~= v1.subrange(1, 17));
    }
    lemma_read_fields_len(s2, l, 34);
    let x0 = s.with_pos(q2 + 10);
    lemma_with_pos(s, q2 + 10);
    crate::bits::lemma_bit_index(e.byte_offset as int, e.bit_offset as int);
    assert(e == x0);
}

/// When reading a recording's frames gives some, the first is the frame
/// stored in the bytes after the first length byte, as many as that byte
/// says, and the others are the frames read from the byte after those.
pub proof fn lemma_read_frames_first(s: StreamState)
    requires
        s.wf(),
        read_frames(s).0 matches Ok(fs) && fs.len() > 0,
    ensures
        ({
            let fs = read_frames(s).0->Ok_0;
            let p = s.pos();
            let length = bits_value(s.data, p, 8);
            let u = s.with_pos(p + 8);
            &&& 0 < length
            &&& p + 8 + 8 * length <= s.bit_len()
            &&& frame_read(fresh_stream(chunk_bytes(u, length))).0 == Ok::<Frame, Error>(fs[0])
            &&& read_frames(s.with_pos(p + 8 + 8 * length)) == (
                Ok::<Seq<Frame>, Error>(fs.drop_first()),
                read_frames(s).1,
            )
        }),
{
    let p = s.pos();
    let u = s.with_pos(p + 8);
    lemma_with_pos(s, p + 8);
    let length = read_value(s, 8);
    let avail = crate::model::whole_bytes_left(u);
    let v = u.with_pos(u.pos() + 8 * length);
    assert(v == s.with_pos(p + 8 + 8 * length));
    let fs = read_frames(s).0->Ok_0;
    let f = frame_read(fresh_stream(chunk_bytes(u, length))).0->Ok_0;
    let rest = read_frames(v);
    assert(fs =~= seq![f] + rest.0->Ok_0);
    assert(fs.drop_first() =~= rest.0->Ok_0);
}

} // verus!
