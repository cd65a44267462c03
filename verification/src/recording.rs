use vstd::prelude::*;
use vstd::arithmetic::power2::{pow2, lemma2_to64, lemma2_to64_rest};
use crate::bit_stream::BitStream;
use crate::bits::{bits_value, lemma_bit_index, lemma_single_bit};
use vstd::utf8::{decode_utf8, encode_utf8};
use crate::error::Error;
use crate::layout::{Field, lemma_write_fields_compact, layout_ok, embeds, layout_closed, lemma_read_fields_len, lemma_read_optional_embed, lemma_write_optional_embed, lemma_write_fields_pos, lemma_prefixed_empty, written_value, absent, lemma_field_read, lemma_write_step, lemma_fields_done, write_fields, lemma_prefixed_assoc, lemma_read_step, prefixed, read_fields};
use crate::model::{StreamState, lemma_write_state_pos, lemma_write_bytes_state_pos, write_bytes_state, read_string_end, read_string_error, read_string_succeeds, string_bytes, whole_bytes_left, write_state, write_u8_state, flag_read_state, read_end, read_error, read_succeeds, read_value};

verus! {

/// What a read of `n` bits into an integer of `width` bits does: the
/// stream before and after it and the result.
pub open spec fn read_done(before: StreamState, after: StreamState, r: Result<u64, Error>, n: nat, width: nat) -> bool {
    &&& after.wf()
    &&& after.data == before.data
    &&& after.pos() == read_end(before, n, width)
    &&& match r {
        Ok(v) => read_succeeds(before, n, width) && v == read_value(before, n),
        Err(e) => !read_succeeds(before, n, width) && e == read_error(before, n, width),
    }
}

/// What a write of the low `n` bits of `v` does: the stream before and
/// after it and the result.
pub open spec fn write_done(before: StreamState, after: StreamState, r: Result<(), Error>, v: nat, n: nat) -> bool {
    &&& after.wf()
    &&& match r {
        Ok(()) => v < pow2(n) && after == write_state(before, v, n),
        Err(e) => v >= pow2(n) && after == before && e == Error::ValueOverflowsBitCount,
    }
}

/// What a read of a record with the given fields does: the stream before
/// and after it and the result.
pub open spec fn record_read_done<T>(
    before: StreamState,
    after: StreamState,
    r: Result<T, Error>,
    layout: Seq<Field>,
    from_values: spec_fn(Seq<Option<nat>>) -> T,
) -> bool {
    &&& after == read_fields(before, layout, 0).1
    &&& match read_fields(before, layout, 0).0 {
        Ok(vals) => r == Ok::<T, Error>(from_values(vals)),
        Err(e) => r == Err::<T, Error>(e),
    }
}

/// What a write of a record's field values does: the stream before and
/// after it and the result.
pub open spec fn record_write_done(
    before: StreamState,
    after: StreamState,
    r: Result<(), Error>,
    layout: Seq<Field>,
    vals: Seq<Option<nat>>,
) -> bool {
    &&& after == write_fields(before, layout, vals, 0).1
    &&& (r is Ok <==> write_fields(before, layout, vals, 0).0)
    &&& (r matches Err(e) ==> e == Error::ValueOverflowsBitCount)
}

/// The value of an optional 32-bit field.
pub open spec fn opt_value32(o: Option<u32>) -> Option<nat> {
    match o {
        Some(v) => Some(v as nat),
        None => None,
    }
}

/// An optional 32-bit field from its value.
pub open spec fn opt32_from_value(v: Option<nat>) -> Option<u32> {
    match v {
        Some(v) => Some(v as u32),
        None => None,
    }
}

/// The value of a presence flag.
pub open spec fn flag_value(present: bool) -> Option<nat> {
    Some(if present { 1 } else { 0 })
}

/// The value of an optional field.
pub open spec fn opt_value(o: Option<u64>) -> Option<nat> {
    match o {
        Some(v) => Some(v as nat),
        None => None,
    }
}

/// An optional field from its value.
pub open spec fn opt_from_value(v: Option<nat>) -> Option<u64> {
    match v {
        Some(v) => Some(v as u64),
        None => None,
    }
}

/// One player's input in a frame. The view angles are kept as the 16-bit
/// integers they are stored as (a turn mapped onto 0 to 65535) and the
/// movement axes as their 6-bit integers (sixteenths, offset by one).
#[derive(Clone, Copy, Debug, PartialEq, Eq)]
pub struct Move {
    pub yaw: Option<u64>,
    pub pitch: Option<u64>,
    pub roll: Option<u64>,
    pub mx: u64,
    pub my: u64,
    pub mz: u64,
    pub freelook: bool,
    pub triggers: [bool; 6],
}

/// The fields of a move, in stream order.
pub open spec fn move_layout() -> Seq<Field> {
    seq![
        Field::Flag(1),
        Field::Bits(16, 64),
        Field::Flag(1),
        Field::Bits(16, 64),
        Field::Flag(1),
        Field::Bits(16, 64),
        Field::Bits(6, 64),
        Field::Bits(6, 64),
        Field::Bits(6, 64),
        Field::Bits(1, 8),
        Field::Bits(1, 8),
        Field::Bits(1, 8),
        Field::Bits(1, 8),
        Field::Bits(1, 8),
        Field::Bits(1, 8),
        Field::Bits(1, 8),
    ]
}

/// The field values of a move.
pub open spec fn move_values(m: Move) -> Seq<Option<nat>> {
    seq![
        flag_value(m.yaw is Some),
        opt_value(m.yaw),
        flag_value(m.pitch is Some),
        opt_value(m.pitch),
        flag_value(m.roll is Some),
        opt_value(m.roll),
        Some(m.mx as nat),
        Some(m.my as nat),
        Some(m.mz as nat),
        flag_value(m.freelook),
        flag_value(m.triggers@[0]),
        flag_value(m.triggers@[1]),
        flag_value(m.triggers@[2]),
        flag_value(m.triggers@[3]),
        flag_value(m.triggers@[4]),
        flag_value(m.triggers@[5]),
    ]
}

/// The move with the given field values.
pub open spec fn move_from_values(vs: Seq<Option<nat>>) -> Move {
    Move {
        yaw: opt_from_value(vs[1]),
        pitch: opt_from_value(vs[3]),
        roll: opt_from_value(vs[5]),
        mx: vs[6]->Some_0 as u64,
        my: vs[7]->Some_0 as u64,
        mz: vs[8]->Some_0 as u64,
        freelook: vs[9] == Some(1nat),
        triggers: [
            vs[10] == Some(1nat),
            vs[11] == Some(1nat),
            vs[12] == Some(1nat),
            vs[13] == Some(1nat),
            vs[14] == Some(1nat),
            vs[15] == Some(1nat),
        ],
    }
}

impl Move {
    /// Reads a view angle: its 16 bits.
    fn read_angle(bs: &mut BitStream) -> (r: Result<u64, Error>)
        requires
            old(bs)@.wf(),
        ensures
            read_done(old(bs)@, final(bs)@, r, 16, 64),
    {
        bs.read_bits_u64(16)
    }

    /// Reads an optional view angle: a presence flag and, when set, the
    /// angle.
    fn read_optional_angle(bs: &mut BitStream, Ghost(fields): Ghost<Seq<Field>>, Ghost(i): Ghost<nat>) -> (r: Result<Option<u64>, Error>)
        requires
            old(bs)@.wf(),
            i + 2 <= fields.len(),
            fields[i as int] == Field::Flag(1),
            fields[i + 1int] == Field::Bits(16, 64),
        ensures
            final(bs)@.wf(),
            match r {
                Ok(o) => read_fields(old(bs)@, fields, i) == prefixed(
                    seq![flag_value(o is Some), opt_value(o)],
                    read_fields(final(bs)@, fields, i + 2),
                ),
                Err(e) => read_fields(old(bs)@, fields, i) == (Err::<Seq<Option<nat>>, Error>(e), final(bs)@),
            },
    {
        let ghost s = bs@;
        proof {
            lemma_single_bit(s.data, s.pos());
        }
        let f = |b: &mut BitStream| -> (res: Result<u64, Error>)
            requires
                old(b)@.wf(),
            ensures
                read_done(old(b)@, final(b)@, res, 16, 64),
            { Move::read_angle(b) };
        let r = bs.read_optional(f);
        proof {
            let t1 = flag_read_state(s);
            if !read_succeeds(s, 1, 8) {
                lemma_read_step(s, s, fields, i);
            } else if read_value(s, 1) == 0 {
                lemma_read_step(s, t1, fields, i);
                assert(seq![Some(0nat)] + absent(1) =~= seq![flag_value(false), opt_value(None)]);
            } else {
                lemma_read_step(s, t1, fields, i);
                assert(seq![Some(1nat)] + absent(0) =~= seq![Some(1nat)]);
                let res = match r {
                    Ok(Some(t)) => Ok::<u64, Error>(t),
                    Ok(None) => Ok::<u64, Error>(0),
                    Err(e) => Err::<u64, Error>(e),
                };
                let b = choose|b: &mut BitStream|
                    b@ == t1 && final(b)@ == bs@ && call_ensures(f, (b,), res);
                assert(read_done(t1, bs@, res, 16, 64));
                lemma_read_step(t1, bs@, fields, i + 1);
                if let Ok(Some(t)) = r {
                    lemma_prefixed_assoc(seq![Some(1nat)], seq![Some(t as nat)], read_fields(bs@, fields, i + 2));
                    assert(seq![Some(1nat)] + seq![Some(t as nat)] =~= seq![flag_value(true), opt_value(Some(t))]);
                }
            }
        }
        r
    }

    /// Reads a move: three optional view angles, the three movement axes,
    /// the free-look flag and the six trigger flags.
    #[verifier::rlimit(30)]
    pub fn from_stream(bs: &mut BitStream) -> (r: Result<Move, Error>)
        requires
            old(bs)@.wf(),
        ensures
            final(bs)@ == read_fields(old(bs)@, move_layout(), 0).1,
            match read_fields(old(bs)@, move_layout(), 0).0 {
                Ok(vals) => r == Ok::<Move, Error>(move_from_values(vals)),
                Err(e) => r == Err::<Move, Error>(e),
            },
    {
        let ghost layout = move_layout();
        let ghost whole = read_fields(bs@, layout, 0);
        let yaw = match Move::read_optional_angle(bs, Ghost(layout), Ghost(0)) {
            Ok(v) => v,
            Err(e) => {
                return Err(e);
            },
        };
        let ghost mut acc = seq![flag_value(yaw is Some), opt_value(yaw)];
        let ghost cur = bs@;
        let pitch = match Move::read_optional_angle(bs, Ghost(layout), Ghost(2)) {
            Ok(v) => v,
            Err(e) => {
                return Err(e);
            },
        };
        proof {
            lemma_prefixed_assoc(acc, seq![flag_value(pitch is Some), opt_value(pitch)], read_fields(bs@, layout, 4));
            acc = acc + seq![flag_value(pitch is Some), opt_value(pitch)];
        }
        let roll = match Move::read_optional_angle(bs, Ghost(layout), Ghost(4)) {
            Ok(v) => v,
            Err(e) => {
                return Err(e);
            },
        };
        proof {
            lemma_prefixed_assoc(acc, seq![flag_value(roll is Some), opt_value(roll)], read_fields(bs@, layout, 6));
            acc = acc + seq![flag_value(roll is Some), opt_value(roll)];
        }
        let ghost cur = bs@;
        let r6 = bs.read_bits_u64(6);
        proof {
            lemma_field_read(whole, acc, cur, bs@, layout, 6);
        }
        let mx = match r6 {
            Ok(v) => v,
            Err(e) => {
                return Err(e);
            },
        };
        proof {
            acc = acc.push(Some(mx as nat));
        }
        let ghost cur = bs@;
        let r7 = bs.read_bits_u64(6);
        proof {
            lemma_field_read(whole, acc, cur, bs@, layout, 7);
        }
        let my = match r7 {
            Ok(v) => v,
            Err(e) => {
                return Err(e);
            },
        };
        proof {
            acc = acc.push(Some(my as nat));
        }
        let ghost cur = bs@;
        let r8 = bs.read_bits_u64(6);
        proof {
            lemma_field_read(whole, acc, cur, bs@, layout, 8);
        }
        let mz = match r8 {
            Ok(v) => v,
            Err(e) => {
                return Err(e);
            },
        };
        proof {
            acc = acc.push(Some(mz as nat));
        }
        let ghost cur = bs@;
        let r9 = bs.read_bool();
        proof {
            lemma_single_bit(cur.data, cur.pos());
            lemma_field_read(whole, acc, cur, bs@, layout, 9);
        }
        let freelook = match r9 {
            Ok(v) => v,
            Err(e) => {
                return Err(e);
            },
        };
        proof {
            acc = acc.push(flag_value(freelook));
        }
        let mut triggers = [false; 6];
        let mut i: usize = 0;
        while i < 6
            invariant
                i <= 6,
                layout == move_layout(),
                whole == read_fields(old(bs)@, move_layout(), 0),
                bs@.wf(),
                whole == prefixed(acc, read_fields(bs@, layout, (10 + i) as nat)),
                acc.len() == 10 + i,
                acc[1] == opt_value(yaw),
                acc[3] == opt_value(pitch),
                acc[5] == opt_value(roll),
                acc[6] == Some(mx as nat),
                acc[7] == Some(my as nat),
                acc[8] == Some(mz as nat),
                acc[9] == flag_value(freelook),
                forall|j: int| 0 <= j < i ==> acc[10 + j] == flag_value(#[trigger] triggers@[j]),
            decreases 6 - i,
        {
            let ghost cur = bs@;
            let rb = bs.read_bool();
            proof {
                lemma_single_bit(cur.data, cur.pos());
                lemma_field_read(whole, acc, cur, bs@, layout, (10 + i) as nat);
            }
            let b = match rb {
                Ok(v) => v,
                Err(e) => {
                    return Err(e);
                },
            };
            triggers[i] = b;
            proof {
                acc = acc.push(flag_value(b));
            }
            i = i + 1;
        }
        let m = Move { yaw, pitch, roll, mx, my, mz, freelook, triggers };
        proof {
            reveal(read_fields);
            assert(read_fields(bs@, layout, 16) == (Ok::<Seq<Option<nat>>, Error>(Seq::empty()), bs@));
            assert(acc + Seq::<Option<nat>>::empty() =~= acc);
            assert(whole == (Ok::<Seq<Option<nat>>, Error>(acc), bs@));
            let mm = move_from_values(acc);
            assert(mm.yaw == yaw);
            assert(mm.mx == mx);
            assert(mm.freelook == freelook);
            assert(m.triggers@ =~= mm.triggers@);
            assert(m.triggers == mm.triggers);
            assert(mm == m);
        }
        Ok(m)
    }

    /// Writes a view angle as 16 bits.
    fn write_angle(bs: &mut BitStream, angle: u64) -> (r: Result<(), Error>)
        requires
            old(bs)@.wf(),
            old(bs)@.byte_offset + 8 <= usize::MAX,
        ensures
            write_done(old(bs)@, final(bs)@, r, angle as nat, 16),
    {
        proof {
            lemma2_to64();
        }
        bs.write_bits_u64(angle, 16)
    }

    /// Writes an optional view angle: a presence flag and, when present,
    /// the angle.
    fn write_optional_angle(
        bs: &mut BitStream,
        angle: Option<u64>,
        Ghost(fields): Ghost<Seq<Field>>,
        Ghost(vals): Ghost<Seq<Option<nat>>>,
        Ghost(i): Ghost<nat>,
    ) -> (r: Result<(), Error>)
        requires
            old(bs)@.wf(),
            old(bs)@.byte_offset + 16 <= usize::MAX,
            i + 2 <= fields.len(),
            i + 2 <= vals.len(),
            fields[i as int] == Field::Flag(1),
            fields[i + 1int] == Field::Bits(16, 64),
            vals[i as int] == flag_value(angle is Some),
            vals[i + 1int] == opt_value(angle),
        ensures
            final(bs)@.wf(),
            final(bs)@.pos() <= old(bs)@.pos() + 17,
            match r {
                Ok(()) => write_fields(old(bs)@, fields, vals, i) == write_fields(final(bs)@, fields, vals, i + 2),
                Err(e) => e == Error::ValueOverflowsBitCount && write_fields(old(bs)@, fields, vals, i)
                    == (false, final(bs)@),
            },
    {
        let ghost s = bs@;
        proof {
            lemma2_to64();
            lemma_write_step(s, fields, vals, i);
        }
        let f = |b: &mut BitStream, a: u64| -> (res: Result<(), Error>)
            requires
                old(b)@.wf(),
                old(b)@.byte_offset + 8 <= usize::MAX,
            ensures
                write_done(old(b)@, final(b)@, res, a as nat, 16),
            { Move::write_angle(b, a) };
        let r = bs.write_optional(angle, f);
        proof {
            if let Some(a) = angle {
                let t1 = write_u8_state(s, 1, 1);
                assert(t1 == write_state(s, 1, 1));
                let b = choose|b: &mut BitStream|
                    b@ == t1 && final(b)@ == bs@ && call_ensures(f, (b, a), r);
                assert(write_done(t1, bs@, r, a as nat, 16));
                lemma_write_step(t1, fields, vals, i + 1);
            } else {
                assert(write_u8_state(s, 0, 1) == write_state(s, 0, 1));
            }
        }
        r
    }

    /// Writes a move in the layout that `from_stream` reads; a value too
    /// wide for its field stops the writing there with an error.
    #[verifier::rlimit(30)]
    pub fn into_stream(self, bs: &mut BitStream) -> (r: Result<(), Error>)
        requires
            old(bs)@.wf(),
            old(bs)@.byte_offset + 32 <= usize::MAX,
        ensures
            final(bs)@ == write_fields(old(bs)@, move_layout(), move_values(self), 0).1,
            r is Ok <==> write_fields(old(bs)@, move_layout(), move_values(self), 0).0,
            r matches Err(e) ==> e == Error::ValueOverflowsBitCount,
    {
        let ghost layout = move_layout();
        let ghost vals = move_values(self);
        let ghost s = bs@;
        let ghost whole = write_fields(bs@, layout, vals, 0);
        proof {
            lemma2_to64();
        }
        match Move::write_optional_angle(bs, self.yaw, Ghost(layout), Ghost(vals), Ghost(0)) {
            Ok(()) => {},
            Err(e) => {
                return Err(e);
            },
        }
        match Move::write_optional_angle(bs, self.pitch, Ghost(layout), Ghost(vals), Ghost(2)) {
            Ok(()) => {},
            Err(e) => {
                return Err(e);
            },
        }
        match Move::write_optional_angle(bs, self.roll, Ghost(layout), Ghost(vals), Ghost(4)) {
            Ok(()) => {},
            Err(e) => {
                return Err(e);
            },
        }
        let ghost cur = bs@;
        proof {
            lemma_write_step(cur, layout, vals, 6);
        }
        match bs.write_bits_u64(self.mx, 6) {
            Ok(()) => {},
            Err(e) => {
                return Err(e);
            },
        }
        let ghost cur = bs@;
        proof {
            lemma_write_step(cur, layout, vals, 7);
        }
        match bs.write_bits_u64(self.my, 6) {
            Ok(()) => {},
            Err(e) => {
                return Err(e);
            },
        }
        let ghost cur = bs@;
        proof {
            lemma_write_step(cur, layout, vals, 8);
        }
        match bs.write_bits_u64(self.mz, 6) {
            Ok(()) => {},
            Err(e) => {
                return Err(e);
            },
        }
        let ghost cur = bs@;
        proof {
            lemma_write_step(cur, layout, vals, 9);
        }
        let _ = bs.write_bool(self.freelook);
        proof {
            assert(vals[10] == flag_value(self.triggers@[0]));
            assert(vals[11] == flag_value(self.triggers@[1]));
            assert(vals[12] == flag_value(self.triggers@[2]));
            assert(vals[13] == flag_value(self.triggers@[3]));
            assert(vals[14] == flag_value(self.triggers@[4]));
            assert(vals[15] == flag_value(self.triggers@[5]));
            assert(forall|j: int| 10 <= j < 16 ==> layout[j] == Field::Bits(1, 8));
        }
        let mut i: usize = 0;
        while i < 6
            invariant
                i <= 6,
                layout == move_layout(),
                vals == move_values(self),
                whole == write_fields(old(bs)@, move_layout(), move_values(self), 0),
                bs@.wf(),
                bs@.pos() <= old(bs)@.pos() + 70 + i,
                old(bs)@.wf(),
                old(bs)@.byte_offset + 32 <= usize::MAX,
                whole == write_fields(bs@, layout, vals, (10 + i) as nat),
                forall|j: int| 0 <= j < 6 ==> vals[10 + j] == flag_value(#[trigger] self.triggers@[j]),
                forall|j: int| 10 <= j < 16 ==> layout[j] == Field::Bits(1, 8),
            decreases 6 - i,
        {
            let ghost cur = bs@;
            assert(vals[10 + i] == flag_value(self.triggers@[i as int]));
            proof {
                lemma2_to64();
                lemma_write_step(cur, layout, vals, (10 + i) as nat);
            }
            let _ = bs.write_bool(self.triggers[i]);
            assert(bs@ == write_state(cur, written_value(vals, 10 + i), 1));
            i = i + 1;
        }
        proof {
            lemma_fields_done(bs@, layout, vals);
        }
        Ok(())
    }
}

/// The header of a speedrun recording. The field of view and the frame rate
/// are kept as the bit patterns of their 32-bit floats.
#[derive(Clone, Copy, Debug, PartialEq, Eq)]
pub struct SpeedrunHeader {
    pub version_major: u8,
    pub version_minor: u8,
    pub reference_system_time: u64,
    pub epoch_offset: u64,
    pub resolution_horz: u16,
    pub resolution_vert: u16,
    pub fov: u32,
    pub fps: u32,
}

/// The fields of a `SpeedrunHeader`, in stream order.
pub open spec fn speedrun_header_layout() -> Seq<Field> {
    seq![
        Field::Bits(8, 8),
        Field::Bits(8, 8),
        Field::Bits(64, 64),
        Field::Bits(64, 64),
        Field::Bits(16, 16),
        Field::Bits(16, 16),
        Field::Bits(32, 32),
        Field::Bits(32, 32),
    ]
}

/// The field values of a `SpeedrunHeader`.
pub open spec fn speedrun_header_values(x: SpeedrunHeader) -> Seq<Option<nat>> {
    seq![
        Some(x.version_major as nat),
        Some(x.version_minor as nat),
        Some(x.reference_system_time as nat),
        Some(x.epoch_offset as nat),
        Some(x.resolution_horz as nat),
        Some(x.resolution_vert as nat),
        Some(x.fov as nat),
        Some(x.fps as nat),
    ]
}

/// The `SpeedrunHeader` with the given field values.
pub open spec fn speedrun_header_from_values(vs: Seq<Option<nat>>) -> SpeedrunHeader {
    SpeedrunHeader {
        version_major: vs[0]->Some_0 as u8,
        version_minor: vs[1]->Some_0 as u8,
        reference_system_time: vs[2]->Some_0 as u64,
        epoch_offset: vs[3]->Some_0 as u64,
        resolution_horz: vs[4]->Some_0 as u16,
        resolution_vert: vs[5]->Some_0 as u16,
        fov: vs[6]->Some_0 as u32,
        fps: vs[7]->Some_0 as u32,
    }
}

impl SpeedrunHeader {
    /// Reads the fields in order.
    pub fn from_stream(bs: &mut BitStream) -> (r: Result<SpeedrunHeader, Error>)
        requires
            old(bs)@.wf(),
        ensures
            final(bs)@ == read_fields(old(bs)@, speedrun_header_layout(), 0).1,
            match read_fields(old(bs)@, speedrun_header_layout(), 0).0 {
                Ok(vals) => r == Ok::<SpeedrunHeader, Error>(speedrun_header_from_values(vals)),
                Err(e) => r == Err::<SpeedrunHeader, Error>(e),
            },
    {
        let ghost layout = speedrun_header_layout();
        let ghost whole = read_fields(bs@, layout, 0);
        let ghost mut acc: Seq<Option<nat>> = Seq::empty();
        proof {
            lemma_prefixed_empty(read_fields(bs@, layout, 0));
        }
        let ghost cur = bs@;
        let r0 = bs.read_u8();
        proof {
            lemma_field_read(whole, acc, cur, bs@, layout, 0);
        }
        let version_major = match r0 {
            Ok(v) => v,
            Err(e) => {
                return Err(e);
            },
        };
        proof {
            acc = acc.push(Some(version_major as nat));
        }
        let ghost cur = bs@;
        let r1 = bs.read_u8();
        proof {
            lemma_field_read(whole, acc, cur, bs@, layout, 1);
        }
        let version_minor = match r1 {
            Ok(v) => v,
            Err(e) => {
                return Err(e);
            },
        };
        proof {
            acc = acc.push(Some(version_minor as nat));
        }
        let ghost cur = bs@;
        let r2 = bs.read_u64();
        proof {
            lemma_field_read(whole, acc, cur, bs@, layout, 2);
        }
        let reference_system_time = match r2 {
            Ok(v) => v,
            Err(e) => {
                return Err(e);
            },
        };
        proof {
            acc = acc.push(Some(reference_system_time as nat));
        }
        let ghost cur = bs@;
        let r3 = bs.read_u64();
        proof {
            lemma_field_read(whole, acc, cur, bs@, layout, 3);
        }
        let epoch_offset = match r3 {
            Ok(v) => v,
            Err(e) => {
                return Err(e);
            },
        };
        proof {
            acc = acc.push(Some(epoch_offset as nat));
        }
        let ghost cur = bs@;
        let r4 = bs.read_u16();
        proof {
            lemma_field_read(whole, acc, cur, bs@, layout, 4);
        }
        let resolution_horz = match r4 {
            Ok(v) => v,
            Err(e) => {
                return Err(e);
            },
        };
        proof {
            acc = acc.push(Some(resolution_horz as nat));
        }
        let ghost cur = bs@;
        let r5 = bs.read_u16();
        proof {
            lemma_field_read(whole, acc, cur, bs@, layout, 5);
        }
        let resolution_vert = match r5 {
            Ok(v) => v,
            Err(e) => {
                return Err(e);
            },
        };
        proof {
            acc = acc.push(Some(resolution_vert as nat));
        }
        let ghost cur = bs@;
        let r6 = bs.read_u32();
        proof {
            lemma_field_read(whole, acc, cur, bs@, layout, 6);
        }
        let fov = match r6 {
            Ok(v) => v,
            Err(e) => {
                return Err(e);
            },
        };
        proof {
            acc = acc.push(Some(fov as nat));
        }
        let ghost cur = bs@;
        let r7 = bs.read_u32();
        proof {
            lemma_field_read(whole, acc, cur, bs@, layout, 7);
        }
        let fps = match r7 {
            Ok(v) => v,
            Err(e) => {
                return Err(e);
            },
        };
        proof {
            acc = acc.push(Some(fps as nat));
        }
        proof {
            lemma_fields_done(bs@, layout, Seq::empty());
            assert(acc + Seq::<Option<nat>>::empty() =~= acc);
        }
        Ok(SpeedrunHeader { version_major, version_minor, reference_system_time, epoch_offset, resolution_horz, resolution_vert, fov, fps })
    }

    /// Writes the fields in order.
    pub fn into_stream(self, bs: &mut BitStream) -> (r: Result<(), Error>)
        requires
            old(bs)@.wf(),
            old(bs)@.byte_offset + 64 <= usize::MAX,
        ensures
            r is Ok,
            write_fields(old(bs)@, speedrun_header_layout(), speedrun_header_values(self), 0).0,
            final(bs)@ == write_fields(old(bs)@, speedrun_header_layout(), speedrun_header_values(self), 0).1,
    {
        let ghost layout = speedrun_header_layout();
        let ghost vals = speedrun_header_values(self);
        let ghost whole = write_fields(bs@, layout, vals, 0);
        proof {
            lemma2_to64();
            lemma2_to64_rest();
        }
        let ghost cur = bs@;
        proof {
            lemma_write_step(cur, layout, vals, 0);
        }
        let _ = bs.write_u8(self.version_major);
        assert(bs@ == write_state(cur, written_value(vals, 0), 8));
        let ghost cur = bs@;
        proof {
            lemma_write_step(cur, layout, vals, 1);
        }
        let _ = bs.write_u8(self.version_minor);
        assert(bs@ == write_state(cur, written_value(vals, 1), 8));
        let ghost cur = bs@;
        proof {
            lemma_write_step(cur, layout, vals, 2);
        }
        let _ = bs.write_u64(self.reference_system_time);
        assert(bs@ == write_state(cur, written_value(vals, 2), 64));
        let ghost cur = bs@;
        proof {
            lemma_write_step(cur, layout, vals, 3);
        }
        let _ = bs.write_u64(self.epoch_offset);
        assert(bs@ == write_state(cur, written_value(vals, 3), 64));
        let ghost cur = bs@;
        proof {
            lemma_write_step(cur, layout, vals, 4);
        }
        let _ = bs.write_u16(self.resolution_horz);
        assert(bs@ == write_state(cur, written_value(vals, 4), 16));
        let ghost cur = bs@;
        proof {
            lemma_write_step(cur, layout, vals, 5);
        }
        let _ = bs.write_u16(self.resolution_vert);
        assert(bs@ == write_state(cur, written_value(vals, 5), 16));
        let ghost cur = bs@;
        proof {
            lemma_write_step(cur, layout, vals, 6);
        }
        let _ = bs.write_u32(self.fov);
        assert(bs@ == write_state(cur, written_value(vals, 6), 32));
        let ghost cur = bs@;
        proof {
            lemma_write_step(cur, layout, vals, 7);
        }
        let _ = bs.write_u32(self.fps);
        assert(bs@ == write_state(cur, written_value(vals, 7), 32));
        proof {
            lemma_fields_done(bs@, layout, vals);
        }
        Ok(())
    }
}
/// The physics state of a frame: position, velocity and angular velocity,
/// each component kept as the bit pattern of its 64-bit float.
#[derive(Clone, Copy, Debug, PartialEq, Eq)]
pub struct PhysicsData {
    pub position_x: u64,
    pub position_y: u64,
    pub position_z: u64,
    pub velocity_x: u64,
    pub velocity_y: u64,
    pub velocity_z: u64,
    pub angular_velocity_x: u64,
    pub angular_velocity_y: u64,
    pub angular_velocity_z: u64,
}

/// The fields of a `PhysicsData`, in stream order.
pub open spec fn physics_data_layout() -> Seq<Field> {
    seq![
        Field::Bits(64, 64),
        Field::Bits(64, 64),
        Field::Bits(64, 64),
        Field::Bits(64, 64),
        Field::Bits(64, 64),
        Field::Bits(64, 64),
        Field::Bits(64, 64),
        Field::Bits(64, 64),
        Field::Bits(64, 64),
    ]
}

/// The field values of a `PhysicsData`.
pub open spec fn physics_data_values(x: PhysicsData) -> Seq<Option<nat>> {
    seq![
        Some(x.position_x as nat),
        Some(x.position_y as nat),
        Some(x.position_z as nat),
        Some(x.velocity_x as nat),
        Some(x.velocity_y as nat),
        Some(x.velocity_z as nat),
        Some(x.angular_velocity_x as nat),
        Some(x.angular_velocity_y as nat),
        Some(x.angular_velocity_z as nat),
    ]
}

/// The `PhysicsData` with the given field values.
pub open spec fn physics_data_from_values(vs: Seq<Option<nat>>) -> PhysicsData {
    PhysicsData {
        position_x: vs[0]->Some_0 as u64,
        position_y: vs[1]->Some_0 as u64,
        position_z: vs[2]->Some_0 as u64,
        velocity_x: vs[3]->Some_0 as u64,
        velocity_y: vs[4]->Some_0 as u64,
        velocity_z: vs[5]->Some_0 as u64,
        angular_velocity_x: vs[6]->Some_0 as u64,
        angular_velocity_y: vs[7]->Some_0 as u64,
        angular_velocity_z: vs[8]->Some_0 as u64,
    }
}

impl PhysicsData {
    /// Reads the fields in order.
    pub fn from_stream(bs: &mut BitStream) -> (r: Result<PhysicsData, Error>)
        requires
            old(bs)@.wf(),
        ensures
            final(bs)@ == read_fields(old(bs)@, physics_data_layout(), 0).1,
            match read_fields(old(bs)@, physics_data_layout(), 0).0 {
                Ok(vals) => r == Ok::<PhysicsData, Error>(physics_data_from_values(vals)),
                Err(e) => r == Err::<PhysicsData, Error>(e),
            },
    {
        let ghost layout = physics_data_layout();
        let ghost whole = read_fields(bs@, layout, 0);
        let ghost mut acc: Seq<Option<nat>> = Seq::empty();
        proof {
            lemma_prefixed_empty(read_fields(bs@, layout, 0));
        }
        let ghost cur = bs@;
        let r0 = bs.read_u64();
        proof {
            lemma_field_read(whole, acc, cur, bs@, layout, 0);
        }
        let position_x = match r0 {
            Ok(v) => v,
            Err(e) => {
                return Err(e);
            },
        };
        proof {
            acc = acc.push(Some(position_x as nat));
        }
        let ghost cur = bs@;
        let r1 = bs.read_u64();
        proof {
            lemma_field_read(whole, acc, cur, bs@, layout, 1);
        }
        let position_y = match r1 {
            Ok(v) => v,
            Err(e) => {
                return Err(e);
            },
        };
        proof {
            acc = acc.push(Some(position_y as nat));
        }
        let ghost cur = bs@;
        let r2 = bs.read_u64();
        proof {
            lemma_field_read(whole, acc, cur, bs@, layout, 2);
        }
        let position_z = match r2 {
            Ok(v) => v,
            Err(e) => {
                return Err(e);
            },
        };
        proof {
            acc = acc.push(Some(position_z as nat));
        }
        let ghost cur = bs@;
        let r3 = bs.read_u64();
        proof {
            lemma_field_read(whole, acc, cur, bs@, layout, 3);
        }
        let velocity_x = match r3 {
            Ok(v) => v,
            Err(e) => {
                return Err(e);
            },
        };
        proof {
            acc = acc.push(Some(velocity_x as nat));
        }
        let ghost cur = bs@;
        let r4 = bs.read_u64();
        proof {
            lemma_field_read(whole, acc, cur, bs@, layout, 4);
        }
        let velocity_y = match r4 {
            Ok(v) => v,
            Err(e) => {
                return Err(e);
            },
        };
        proof {
            acc = acc.push(Some(velocity_y as nat));
        }
        let ghost cur = bs@;
        let r5 = bs.read_u64();
        proof {
            lemma_field_read(whole, acc, cur, bs@, layout, 5);
        }
        let velocity_z = match r5 {
            Ok(v) => v,
            Err(e) => {
                return Err(e);
            },
        };
        proof {
            acc = acc.push(Some(velocity_z as nat));
        }
        let ghost cur = bs@;
        let r6 = bs.read_u64();
        proof {
            lemma_field_read(whole, acc, cur, bs@, layout, 6);
        }
        let angular_velocity_x = match r6 {
            Ok(v) => v,
            Err(e) => {
                return Err(e);
            },
        };
        proof {
            acc = acc.push(Some(angular_velocity_x as nat));
        }
        let ghost cur = bs@;
        let r7 = bs.read_u64();
        proof {
            lemma_field_read(whole, acc, cur, bs@, layout, 7);
        }
        let angular_velocity_y = match r7 {
            Ok(v) => v,
            Err(e) => {
                return Err(e);
            },
        };
        proof {
            acc = acc.push(Some(angular_velocity_y as nat));
        }
        let ghost cur = bs@;
        let r8 = bs.read_u64();
        proof {
            lemma_field_read(whole, acc, cur, bs@, layout, 8);
        }
        let angular_velocity_z = match r8 {
            Ok(v) => v,
            Err(e) => {
                return Err(e);
            },
        };
        proof {
            acc = acc.push(Some(angular_velocity_z as nat));
        }
        proof {
            lemma_fields_done(bs@, layout, Seq::empty());
            assert(acc + Seq::<Option<nat>>::empty() =~= acc);
        }
        Ok(PhysicsData { position_x, position_y, position_z, velocity_x, velocity_y, velocity_z, angular_velocity_x, angular_velocity_y, angular_velocity_z })
    }

    /// Writes the fields in order.
    pub fn into_stream(self, bs: &mut BitStream) -> (r: Result<(), Error>)
        requires
            old(bs)@.wf(),
            old(bs)@.byte_offset + 128 <= usize::MAX,
        ensures
            r is Ok,
            write_fields(old(bs)@, physics_data_layout(), physics_data_values(self), 0).0,
            final(bs)@ == write_fields(old(bs)@, physics_data_layout(), physics_data_values(self), 0).1,
    {
        let ghost layout = physics_data_layout();
        let ghost vals = physics_data_values(self);
        let ghost whole = write_fields(bs@, layout, vals, 0);
        proof {
            lemma2_to64();
            lemma2_to64_rest();
        }
        let ghost cur = bs@;
        proof {
            lemma_write_step(cur, layout, vals, 0);
        }
        let _ = bs.write_u64(self.position_x);
        assert(bs@ == write_state(cur, written_value(vals, 0), 64));
        let ghost cur = bs@;
        proof {
            lemma_write_step(cur, layout, vals, 1);
        }
        let _ = bs.write_u64(self.position_y);
        assert(bs@ == write_state(cur, written_value(vals, 1), 64));
        let ghost cur = bs@;
        proof {
            lemma_write_step(cur, layout, vals, 2);
        }
        let _ = bs.write_u64(self.position_z);
        assert(bs@ == write_state(cur, written_value(vals, 2), 64));
        let ghost cur = bs@;
        proof {
            lemma_write_step(cur, layout, vals, 3);
        }
        let _ = bs.write_u64(self.velocity_x);
        assert(bs@ == write_state(cur, written_value(vals, 3), 64));
        let ghost cur = bs@;
        proof {
            lemma_write_step(cur, layout, vals, 4);
        }
        let _ = bs.write_u64(self.velocity_y);
        assert(bs@ == write_state(cur, written_value(vals, 4), 64));
        let ghost cur = bs@;
        proof {
            lemma_write_step(cur, layout, vals, 5);
        }
        let _ = bs.write_u64(self.velocity_z);
        assert(bs@ == write_state(cur, written_value(vals, 5), 64));
        let ghost cur = bs@;
        proof {
            lemma_write_step(cur, layout, vals, 6);
        }
        let _ = bs.write_u64(self.angular_velocity_x);
        assert(bs@ == write_state(cur, written_value(vals, 6), 64));
        let ghost cur = bs@;
        proof {
            lemma_write_step(cur, layout, vals, 7);
        }
        let _ = bs.write_u64(self.angular_velocity_y);
        assert(bs@ == write_state(cur, written_value(vals, 7), 64));
        let ghost cur = bs@;
        proof {
            lemma_write_step(cur, layout, vals, 8);
        }
        let _ = bs.write_u64(self.angular_velocity_z);
        assert(bs@ == write_state(cur, written_value(vals, 8), 64));
        proof {
            lemma_fields_done(bs@, layout, vals);
        }
        Ok(())
    }
}
/// The optional extra data of a frame; at least one part is present.
#[derive(Clone, Copy, Debug, PartialEq, Eq)]
pub struct ExtraData {
    pub speedrun_header: Option<SpeedrunHeader>,
    pub sys_time_delta: Option<u32>,
    pub game_elapsed: Option<u32>,
    pub physics_data: Option<PhysicsData>,
}

/// The fields of extra data, in stream order: each part behind a presence
/// flag; the two times take 24 bits each.
pub open spec fn extra_data_layout() -> Seq<Field> {
    seq![Field::Flag(8)] + speedrun_header_layout() + seq![
        Field::Flag(1),
        Field::Bits(24, 32),
        Field::Flag(1),
        Field::Bits(24, 32),
        Field::Flag(9),
    ] + physics_data_layout()
}

/// The field values of extra data.
pub open spec fn extra_data_values(x: ExtraData) -> Seq<Option<nat>> {
    seq![flag_value(x.speedrun_header is Some)] + match x.speedrun_header {
        Some(h) => speedrun_header_values(h),
        None => absent(8),
    } + seq![
        flag_value(x.sys_time_delta is Some),
        opt_value32(x.sys_time_delta),
        flag_value(x.game_elapsed is Some),
        opt_value32(x.game_elapsed),
        flag_value(x.physics_data is Some),
    ] + match x.physics_data {
        Some(p) => physics_data_values(p),
        None => absent(9),
    }
}

/// The extra data with the given field values.
pub open spec fn extra_data_from_values(vs: Seq<Option<nat>>) -> ExtraData {
    ExtraData {
        speedrun_header: if vs[0] == Some(1nat) {
            Some(speedrun_header_from_values(vs.subrange(1, 9)))
        } else {
            None
        },
        sys_time_delta: opt32_from_value(vs[10]),
        game_elapsed: opt32_from_value(vs[12]),
        physics_data: if vs[13] == Some(1nat) {
            Some(physics_data_from_values(vs.subrange(14, 23)))
        } else {
            None
        },
    }
}

/// Extra data field values with every part absent.
pub open spec fn extra_data_empty(vs: Seq<Option<nat>>) -> bool {
    vs[0] == Some(0nat) && vs[9] == Some(0nat) && vs[11] == Some(0nat) && vs[13] == Some(0nat)
}

/// How the extra data's layout is put together.
pub proof fn lemma_extra_data_layout()
    ensures
        extra_data_layout().len() == 23,
        extra_data_layout()[0] == Field::Flag(8),
        embeds(extra_data_layout(), 1, speedrun_header_layout()),
        layout_closed(speedrun_header_layout()),
        extra_data_layout()[9] == Field::Flag(1),
        extra_data_layout()[10] == Field::Bits(24, 32),
        extra_data_layout()[11] == Field::Flag(1),
        extra_data_layout()[12] == Field::Bits(24, 32),
        extra_data_layout()[13] == Field::Flag(9),
        embeds(extra_data_layout(), 14, physics_data_layout()),
        layout_closed(physics_data_layout()),
        speedrun_header_layout().len() == 8,
        physics_data_layout().len() == 9,
{
    let l = extra_data_layout();
    assert(embeds(l, 1, speedrun_header_layout()));
    assert(embeds(l, 14, physics_data_layout()));
}

/// How the extra data's field values are put together.
pub proof fn lemma_extra_data_values(x: ExtraData)
    ensures
        extra_data_values(x).len() == 23,
        extra_data_values(x)[0] == flag_value(x.speedrun_header is Some),
        x.speedrun_header matches Some(h) ==> forall|j: int|
            0 <= j < 8 ==> extra_data_values(x)[1 + j] == #[trigger] speedrun_header_values(h)[j],
        extra_data_values(x)[9] == flag_value(x.sys_time_delta is Some),
        extra_data_values(x)[10] == opt_value32(x.sys_time_delta),
        extra_data_values(x)[11] == flag_value(x.game_elapsed is Some),
        extra_data_values(x)[12] == opt_value32(x.game_elapsed),
        extra_data_values(x)[13] == flag_value(x.physics_data is Some),
        x.physics_data matches Some(p) ==> forall|j: int|
            0 <= j < 9 ==> extra_data_values(x)[14 + j] == #[trigger] physics_data_values(p)[j],
{
}

impl ExtraData {
    /// Reads an optional time: a presence flag and, when set, 24 bits.
    fn read_optional_time(bs: &mut BitStream, Ghost(fields): Ghost<Seq<Field>>, Ghost(i): Ghost<nat>) -> (r: Result<Option<u32>, Error>)
        requires
            old(bs)@.wf(),
            i + 2 <= fields.len(),
            fields[i as int] == Field::Flag(1),
            fields[i + 1int] == Field::Bits(24, 32),
        ensures
            final(bs)@.wf(),
            match r {
                Ok(o) => read_fields(old(bs)@, fields, i) == prefixed(
                    seq![flag_value(o is Some), opt_value32(o)],
                    read_fields(final(bs)@, fields, i + 2),
                ),
                Err(e) => read_fields(old(bs)@, fields, i) == (Err::<Seq<Option<nat>>, Error>(e), final(bs)@),
            },
    {
        let ghost s = bs@;
        proof {
            lemma_single_bit(s.data, s.pos());
        }
        let f = |b: &mut BitStream| -> (res: Result<u32, Error>)
            requires
                old(b)@.wf(),
            ensures
                final(b)@.wf(),
                final(b)@.data == old(b)@.data,
                final(b)@.pos() == read_end(old(b)@, 24, 32),
                match res {
                    Ok(v) => read_succeeds(old(b)@, 24, 32) && v == read_value(old(b)@, 24),
                    Err(e) => !read_succeeds(old(b)@, 24, 32) && e == read_error(old(b)@, 24, 32),
                },
            { b.read_bits_u32(24) };
        let r = bs.read_optional(f);
        proof {
            let t1 = flag_read_state(s);
            if !read_succeeds(s, 1, 8) {
                lemma_read_step(s, s, fields, i);
            } else if read_value(s, 1) == 0 {
                lemma_read_step(s, t1, fields, i);
                assert(seq![Some(0nat)] + absent(1) =~= seq![flag_value(false), opt_value32(None)]);
            } else {
                lemma_read_step(s, t1, fields, i);
                assert(seq![Some(1nat)] + absent(0) =~= seq![Some(1nat)]);
                let res = match r {
                    Ok(Some(t)) => Ok::<u32, Error>(t),
                    Ok(None) => Ok::<u32, Error>(0),
                    Err(e) => Err::<u32, Error>(e),
                };
                let b = choose|b: &mut BitStream|
                    b@ == t1 && final(b)@ == bs@ && call_ensures(f, (b,), res);
                lemma_read_step(t1, bs@, fields, i + 1);
                if let Ok(Some(t)) = r {
                    lemma_prefixed_assoc(seq![Some(1nat)], seq![Some(t as nat)], read_fields(bs@, fields, i + 2));
                    assert(seq![Some(1nat)] + seq![Some(t as nat)] =~= seq![flag_value(true), opt_value32(Some(t))]);
                }
            }
        }
        r
    }

    /// Reads optional a speedrun header: a presence flag and, when set, the record.
    fn read_optional_speedrun_header(bs: &mut BitStream, Ghost(fields): Ghost<Seq<Field>>, Ghost(i): Ghost<nat>) -> (r: Result<Option<SpeedrunHeader>, Error>)
        requires
            old(bs)@.wf(),
            i + 1 + 8 <= fields.len(),
            fields[i as int] == Field::Flag(8),
            embeds(fields, i + 1, speedrun_header_layout()),
            layout_closed(speedrun_header_layout()),
            speedrun_header_layout().len() == 8,
        ensures
            final(bs)@.wf(),
            match r {
                Ok(None) => read_fields(old(bs)@, fields, i) == prefixed(
                    seq![Some(0nat)] + absent(8),
                    read_fields(final(bs)@, fields, i + 1 + 8),
                ),
                Ok(Some(x)) => {
                    let vs = read_fields(flag_read_state(old(bs)@), speedrun_header_layout(), 0).0->Ok_0;
                    &&& read_fields(old(bs)@, fields, i) == prefixed(
                        seq![Some(1nat)] + vs,
                        read_fields(final(bs)@, fields, i + 1 + 8),
                    )
                    &&& x == speedrun_header_from_values(vs)
                    &&& vs.len() == 8
                },
                Err(e) => read_fields(old(bs)@, fields, i) == (Err::<Seq<Option<nat>>, Error>(e), final(bs)@),
            },
    {
        let ghost s = bs@;
        let ghost t1 = flag_read_state(s);
        let ghost il = speedrun_header_layout();
        proof {
            lemma_single_bit(s.data, s.pos());
            lemma_read_fields_len(t1, il, 0);
        }
        let f = |b: &mut BitStream| -> (res: Result<SpeedrunHeader, Error>)
            requires
                old(b)@.wf(),
            ensures
                record_read_done(old(b)@, final(b)@, res, speedrun_header_layout(), |vs| speedrun_header_from_values(vs)),
            { SpeedrunHeader::from_stream(b) };
        let r = bs.read_optional(f);
        proof {
            let vs = read_fields(t1, il, 0).0->Ok_0;
            if !read_succeeds(s, 1, 8) {
                lemma_read_optional_embed(s, s, fields, i, il);
            } else {
                lemma_read_optional_embed(s, t1, fields, i, il);
                if read_value(s, 1) != 0 {
                    let res = match r {
                        Ok(Some(t)) => Ok::<SpeedrunHeader, Error>(t),
                        Ok(None) => Ok::<SpeedrunHeader, Error>(speedrun_header_from_values(vs)),
                        Err(e) => Err::<SpeedrunHeader, Error>(e),
                    };
                    let b = choose|b: &mut BitStream|
                        b@ == t1 && final(b)@ == bs@ && call_ensures(f, (b,), res);
                    assert(record_read_done(t1, bs@, res, il, |vs| speedrun_header_from_values(vs)));
                    if let Ok(Some(x)) = r {
                        lemma_prefixed_assoc(seq![Some(1nat)], vs, read_fields(bs@, fields, i + 1 + 8));
                    }
                }
            }
        }
        r
    }

    /// Reads optional physics data: a presence flag and, when set, the record.
    fn read_optional_physics_data(bs: &mut BitStream, Ghost(fields): Ghost<Seq<Field>>, Ghost(i): Ghost<nat>) -> (r: Result<Option<PhysicsData>, Error>)
        requires
            old(bs)@.wf(),
            i + 1 + 9 <= fields.len(),
            fields[i as int] == Field::Flag(9),
            embeds(fields, i + 1, physics_data_layout()),
            layout_closed(physics_data_layout()),
            physics_data_layout().len() == 9,
        ensures
            final(bs)@.wf(),
            match r {
                Ok(None) => read_fields(old(bs)@, fields, i) == prefixed(
                    seq![Some(0nat)] + absent(9),
                    read_fields(final(bs)@, fields, i + 1 + 9),
                ),
                Ok(Some(x)) => {
                    let vs = read_fields(flag_read_state(old(bs)@), physics_data_layout(), 0).0->Ok_0;
                    &&& read_fields(old(bs)@, fields, i) == prefixed(
                        seq![Some(1nat)] + vs,
                        read_fields(final(bs)@, fields, i + 1 + 9),
                    )
                    &&& x == physics_data_from_values(vs)
                    &&& vs.len() == 9
                },
                Err(e) => read_fields(old(bs)@, fields, i) == (Err::<Seq<Option<nat>>, Error>(e), final(bs)@),
            },
    {
        let ghost s = bs@;
        let ghost t1 = flag_read_state(s);
        let ghost il = physics_data_layout();
        proof {
            lemma_single_bit(s.data, s.pos());
            lemma_read_fields_len(t1, il, 0);
        }
        let f = |b: &mut BitStream| -> (res: Result<PhysicsData, Error>)
            requires
                old(b)@.wf(),
            ensures
                record_read_done(old(b)@, final(b)@, res, physics_data_layout(), |vs| physics_data_from_values(vs)),
            { PhysicsData::from_stream(b) };
        let r = bs.read_optional(f);
        proof {
            let vs = read_fields(t1, il, 0).0->Ok_0;
            if !read_succeeds(s, 1, 8) {
                lemma_read_optional_embed(s, s, fields, i, il);
            } else {
                lemma_read_optional_embed(s, t1, fields, i, il);
                if read_value(s, 1) != 0 {
                    let res = match r {
                        Ok(Some(t)) => Ok::<PhysicsData, Error>(t),
                        Ok(None) => Ok::<PhysicsData, Error>(physics_data_from_values(vs)),
                        Err(e) => Err::<PhysicsData, Error>(e),
                    };
                    let b = choose|b: &mut BitStream|
                        b@ == t1 && final(b)@ == bs@ && call_ensures(f, (b,), res);
                    assert(record_read_done(t1, bs@, res, il, |vs| physics_data_from_values(vs)));
                    if let Ok(Some(x)) = r {
                        lemma_prefixed_assoc(seq![Some(1nat)], vs, read_fields(bs@, fields, i + 1 + 9));
                    }
                }
            }
        }
        r
    }

    /// Reads extra data: an optional speedrun header, two optional times and
    /// optional physics data; extra data with no part present is an error.
    #[verifier::rlimit(30)]
    pub fn from_stream(bs: &mut BitStream) -> (r: Result<ExtraData, Error>)
        requires
            old(bs)@.wf(),
        ensures
            final(bs)@ == read_fields(old(bs)@, extra_data_layout(), 0).1,
            match read_fields(old(bs)@, extra_data_layout(), 0).0 {
                Ok(vals) => r == if extra_data_empty(vals) {
                    Err::<ExtraData, Error>(Error::Empty)
                } else {
                    Ok::<ExtraData, Error>(extra_data_from_values(vals))
                },
                Err(e) => r == Err::<ExtraData, Error>(e),
            },
    {
        let ghost l = extra_data_layout();
        let ghost whole = read_fields(bs@, l, 0);
        let ghost s0 = bs@;
        proof {
            lemma_extra_data_layout();
        }
        let speedrun_header = match ExtraData::read_optional_speedrun_header(bs, Ghost(l), Ghost(0)) {
            Ok(v) => v,
            Err(e) => {
                return Err(e);
            },
        };
        let ghost hv = read_fields(flag_read_state(s0), speedrun_header_layout(), 0).0->Ok_0;
        let ghost mut acc: Seq<Option<nat>> = if speedrun_header is Some {
            seq![Some(1nat)] + hv
        } else {
            seq![Some(0nat)] + absent(8)
        };
        let sys_time_delta = match ExtraData::read_optional_time(bs, Ghost(l), Ghost(9)) {
            Ok(v) => v,
            Err(e) => {
                return Err(e);
            },
        };
        proof {
            lemma_prefixed_assoc(acc, seq![flag_value(sys_time_delta is Some), opt_value32(sys_time_delta)], read_fields(bs@, l, 11));
            acc = acc + seq![flag_value(sys_time_delta is Some), opt_value32(sys_time_delta)];
        }
        let game_elapsed = match ExtraData::read_optional_time(bs, Ghost(l), Ghost(11)) {
            Ok(v) => v,
            Err(e) => {
                return Err(e);
            },
        };
        proof {
            lemma_prefixed_assoc(acc, seq![flag_value(game_elapsed is Some), opt_value32(game_elapsed)], read_fields(bs@, l, 13));
            acc = acc + seq![flag_value(game_elapsed is Some), opt_value32(game_elapsed)];
        }
        let ghost s3 = bs@;
        let physics_data = match ExtraData::read_optional_physics_data(bs, Ghost(l), Ghost(13)) {
            Ok(v) => v,
            Err(e) => {
                return Err(e);
            },
        };
        let ghost pv = read_fields(flag_read_state(s3), physics_data_layout(), 0).0->Ok_0;
        let ghost tail: Seq<Option<nat>> = if physics_data is Some {
            seq![Some(1nat)] + pv
        } else {
            seq![Some(0nat)] + absent(9)
        };
        proof {
            lemma_prefixed_assoc(acc, tail, read_fields(bs@, l, 23));
            acc = acc + tail;
            lemma_fields_done(bs@, l, Seq::empty());
            assert(acc + Seq::<Option<nat>>::empty() =~= acc);
            assert(whole == (Ok::<Seq<Option<nat>>, Error>(acc), bs@));
            if speedrun_header is Some {
                assert(acc.subrange(1, 9) =~= hv);
            }
            if physics_data is Some {
                assert(acc.subrange(14, 23) =~= pv);
            }
        }
        if speedrun_header.is_none() && sys_time_delta.is_none() && game_elapsed.is_none()
            && physics_data.is_none() {
            return Err(Error::Empty);
        }
        Ok(ExtraData { speedrun_header, sys_time_delta, game_elapsed, physics_data })
    }
    /// Writes optional a speedrun header: a presence flag and, when present, the record.
    fn write_optional_speedrun_header(
        bs: &mut BitStream,
        x: Option<SpeedrunHeader>,
        Ghost(fields): Ghost<Seq<Field>>,
        Ghost(vals): Ghost<Seq<Option<nat>>>,
        Ghost(i): Ghost<nat>,
    ) -> (r: Result<(), Error>)
        requires
            old(bs)@.wf(),
            old(bs)@.byte_offset + 64 + 1 <= usize::MAX,
            i + 1 + 8 <= fields.len(),
            i + 1 + 8 <= vals.len(),
            fields[i as int] == Field::Flag(8),
            embeds(fields, i + 1, speedrun_header_layout()),
            layout_closed(speedrun_header_layout()),
            speedrun_header_layout().len() == 8,
            vals[i as int] == flag_value(x is Some),
            x matches Some(y) ==> forall|j: int|
                0 <= j < 8 ==> vals[i + 1 + j] == #[trigger] speedrun_header_values(y)[j],
        ensures
            final(bs)@.wf(),
            final(bs)@.pos() <= old(bs)@.pos() + 1 + 64 * 8,
            match r {
                Ok(()) => write_fields(old(bs)@, fields, vals, i) == write_fields(final(bs)@, fields, vals, i + 1 + 8),
                Err(e) => e == Error::ValueOverflowsBitCount && write_fields(old(bs)@, fields, vals, i)
                    == (false, final(bs)@),
            },
    {
        let ghost s = bs@;
        let ghost il = speedrun_header_layout();
        proof {
            assert(layout_ok(il));
        }
        let f = |b: &mut BitStream, y: SpeedrunHeader| -> (res: Result<(), Error>)
            requires
                old(b)@.wf(),
                old(b)@.byte_offset + 64 <= usize::MAX,
            ensures
                record_write_done(old(b)@, final(b)@, res, speedrun_header_layout(), speedrun_header_values(y)),
            { y.into_stream(b) };
        let r = bs.write_optional(x, f);
        proof {
            match x {
                Some(y) => {
                    lemma_write_optional_embed(s, fields, vals, i, il, speedrun_header_values(y));
                    let t1 = write_u8_state(s, 1, 1);
                    assert(t1 == write_state(s, 1, 1));
                    let b = choose|b: &mut BitStream|
                        b@ == t1 && final(b)@ == bs@ && call_ensures(f, (b, y), r);
                    assert(record_write_done(t1, bs@, r, il, speedrun_header_values(y)));
                    lemma_write_fields_pos(t1, il, speedrun_header_values(y), 0);
                },
                None => {
                    lemma_write_optional_embed(s, fields, vals, i, il, absent(8));
                    assert(write_u8_state(s, 0, 1) == write_state(s, 0, 1));
                },
            }
        }
        r
    }

    /// Writes optional physics data: a presence flag and, when present, the record.
    fn write_optional_physics_data(
        bs: &mut BitStream,
        x: Option<PhysicsData>,
        Ghost(fields): Ghost<Seq<Field>>,
        Ghost(vals): Ghost<Seq<Option<nat>>>,
        Ghost(i): Ghost<nat>,
    ) -> (r: Result<(), Error>)
        requires
            old(bs)@.wf(),
            old(bs)@.byte_offset + 128 + 1 <= usize::MAX,
            i + 1 + 9 <= fields.len(),
            i + 1 + 9 <= vals.len(),
            fields[i as int] == Field::Flag(9),
            embeds(fields, i + 1, physics_data_layout()),
            layout_closed(physics_data_layout()),
            physics_data_layout().len() == 9,
            vals[i as int] == flag_value(x is Some),
            x matches Some(y) ==> forall|j: int|
                0 <= j < 9 ==> vals[i + 1 + j] == #[trigger] physics_data_values(y)[j],
        ensures
            final(bs)@.wf(),
            final(bs)@.pos() <= old(bs)@.pos() + 1 + 64 * 9,
            match r {
                Ok(()) => write_fields(old(bs)@, fields, vals, i) == write_fields(final(bs)@, fields, vals, i + 1 + 9),
                Err(e) => e == Error::ValueOverflowsBitCount && write_fields(old(bs)@, fields, vals, i)
                    == (false, final(bs)@),
            },
    {
        let ghost s = bs@;
        let ghost il = physics_data_layout();
        proof {
            assert(layout_ok(il));
        }
        let f = |b: &mut BitStream, y: PhysicsData| -> (res: Result<(), Error>)
            requires
                old(b)@.wf(),
                old(b)@.byte_offset + 128 <= usize::MAX,
            ensures
                record_write_done(old(b)@, final(b)@, res, physics_data_layout(), physics_data_values(y)),
            { y.into_stream(b) };
        let r = bs.write_optional(x, f);
        proof {
            match x {
                Some(y) => {
                    lemma_write_optional_embed(s, fields, vals, i, il, physics_data_values(y));
                    let t1 = write_u8_state(s, 1, 1);
                    assert(t1 == write_state(s, 1, 1));
                    let b = choose|b: &mut BitStream|
                        b@ == t1 && final(b)@ == bs@ && call_ensures(f, (b, y), r);
                    assert(record_write_done(t1, bs@, r, il, physics_data_values(y)));
                    lemma_write_fields_pos(t1, il, physics_data_values(y), 0);
                },
                None => {
                    lemma_write_optional_embed(s, fields, vals, i, il, absent(9));
                    assert(write_u8_state(s, 0, 1) == write_state(s, 0, 1));
                },
            }
        }
        r
    }

    /// Writes an optional time: a presence flag and, when present, 24 bits.
    fn write_optional_time(
        bs: &mut BitStream,
        time: Option<u32>,
        Ghost(fields): Ghost<Seq<Field>>,
        Ghost(vals): Ghost<Seq<Option<nat>>>,
        Ghost(i): Ghost<nat>,
    ) -> (r: Result<(), Error>)
        requires
            old(bs)@.wf(),
            old(bs)@.byte_offset + 16 <= usize::MAX,
            i + 2 <= fields.len(),
            i + 2 <= vals.len(),
            fields[i as int] == Field::Flag(1),
            fields[i + 1int] == Field::Bits(24, 32),
            vals[i as int] == flag_value(time is Some),
            vals[i + 1int] == opt_value32(time),
        ensures
            final(bs)@.wf(),
            final(bs)@.pos() <= old(bs)@.pos() + 25,
            match r {
                Ok(()) => write_fields(old(bs)@, fields, vals, i) == write_fields(final(bs)@, fields, vals, i + 2),
                Err(e) => e == Error::ValueOverflowsBitCount && write_fields(old(bs)@, fields, vals, i)
                    == (false, final(bs)@),
            },
    {
        let ghost s = bs@;
        proof {
            lemma2_to64();
            lemma_write_step(s, fields, vals, i);
        }
        let f = |b: &mut BitStream, d: u32| -> (res: Result<(), Error>)
            requires
                old(b)@.wf(),
                old(b)@.byte_offset + 8 <= usize::MAX,
            ensures
                write_done(old(b)@, final(b)@, res, d as nat, 24),
            {
                proof {
                    lemma2_to64();
                }
                b.write_bits_u32(d, 24)
            };
        let r = bs.write_optional(time, f);
        proof {
            if let Some(d) = time {
                let t1 = write_u8_state(s, 1, 1);
                assert(t1 == write_state(s, 1, 1));
                let b = choose|b: &mut BitStream|
                    b@ == t1 && final(b)@ == bs@ && call_ensures(f, (b, d), r);
                assert(write_done(t1, bs@, r, d as nat, 24));
                lemma_write_step(t1, fields, vals, i + 1);
            } else {
                assert(write_u8_state(s, 0, 1) == write_state(s, 0, 1));
            }
        }
        r
    }

    /// Writes extra data in the layout that `from_stream` reads; a time too
    /// wide for its 24 bits stops the writing there with an error.
    pub fn into_stream(self, bs: &mut BitStream) -> (r: Result<(), Error>)
        requires
            old(bs)@.wf(),
            old(bs)@.byte_offset + 256 <= usize::MAX,
        ensures
            final(bs)@ == write_fields(old(bs)@, extra_data_layout(), extra_data_values(self), 0).1,
            r is Ok <==> write_fields(old(bs)@, extra_data_layout(), extra_data_values(self), 0).0,
            r matches Err(e) ==> e == Error::ValueOverflowsBitCount,
    {
        let ghost l = extra_data_layout();
        let ghost vals = extra_data_values(self);
        proof {
            lemma_extra_data_layout();
            lemma_extra_data_values(self);
        }
        match ExtraData::write_optional_speedrun_header(bs, self.speedrun_header, Ghost(l), Ghost(vals), Ghost(0)) {
            Ok(()) => {},
            Err(e) => {
                return Err(e);
            },
        }
        match ExtraData::write_optional_time(bs, self.sys_time_delta, Ghost(l), Ghost(vals), Ghost(9)) {
            Ok(()) => {},
            Err(e) => {
                return Err(e);
            },
        }
        match ExtraData::write_optional_time(bs, self.game_elapsed, Ghost(l), Ghost(vals), Ghost(11)) {
            Ok(()) => {},
            Err(e) => {
                return Err(e);
            },
        }
        match ExtraData::write_optional_physics_data(bs, self.physics_data, Ghost(l), Ghost(vals), Ghost(13)) {
            Ok(()) => {},
            Err(e) => {
                return Err(e);
            },
        }
        proof {
            lemma_fields_done(bs@, l, vals);
        }
        Ok(())
    }

}


/// One frame of a recording: the moves of up to two players, the time since
/// the previous frame in 10 bits, and optional extra data.
#[derive(Clone, Copy, Debug, PartialEq, Eq)]
pub struct Frame {
    pub moves: [Option<Move>; 2],
    pub delta: u16,
    pub extra_data: Option<ExtraData>,
}

/// The fields of a frame before its extra data, in stream order: each move
/// behind a presence flag, then the time delta.
pub open spec fn frame_layout() -> Seq<Field> {
    seq![Field::Flag(16)] + move_layout() + seq![Field::Flag(16)] + move_layout() + seq![Field::Bits(10, 16)]
}

/// The field values of a frame before its extra data.
pub open spec fn frame_values(f: Frame) -> Seq<Option<nat>> {
    seq![flag_value(f.moves@[0] is Some)] + match f.moves@[0] {
        Some(m) => move_values(m),
        None => absent(16),
    } + seq![flag_value(f.moves@[1] is Some)] + match f.moves@[1] {
        Some(m) => move_values(m),
        None => absent(16),
    } + seq![Some(f.delta as nat)]
}

/// The frame with the given field values and extra data.
pub open spec fn frame_from_values(vs: Seq<Option<nat>>, extra: Option<ExtraData>) -> Frame {
    Frame {
        moves: [
            if vs[0] == Some(1nat) {
                Some(move_from_values(vs.subrange(1, 17)))
            } else {
                None
            },
            if vs[17] == Some(1nat) {
                Some(move_from_values(vs.subrange(18, 34)))
            } else {
                None
            },
        ],
        delta: vs[34]->Some_0 as u16,
        extra_data: extra,
    }
}

/// The extra data a frame keeps from a read of extra data: the data when
/// the read succeeded, else none.
pub open spec fn extra_data_outcome(r: Result<Seq<Option<nat>>, Error>) -> Option<ExtraData> {
    match r {
        Ok(vals) => if extra_data_empty(vals) {
            None
        } else {
            Some(extra_data_from_values(vals))
        },
        Err(_) => None,
    }
}

/// Reading a frame: its fields up to the time delta, then extra data, whose
/// failure leaves the frame without extra data.
pub open spec fn frame_read(s: StreamState) -> (Result<Frame, Error>, StreamState) {
    let (head, after_head) = read_fields(s, frame_layout(), 0);
    match head {
        Ok(vals) => {
            let (extra, after_extra) = read_fields(after_head, extra_data_layout(), 0);
            (Ok(frame_from_values(vals, extra_data_outcome(extra))), after_extra)
        },
        Err(e) => (Err(e), after_head),
    }
}

/// Writing a frame: its fields up to the time delta, then its extra data
/// when it has some; whether every value fitted, and the stream after.
pub open spec fn frame_write(s: StreamState, f: Frame) -> (bool, StreamState) {
    let (head_ok, after_head) = write_fields(s, frame_layout(), frame_values(f), 0);
    if !head_ok {
        (false, after_head)
    } else {
        match f.extra_data {
            Some(x) => write_fields(after_head, extra_data_layout(), extra_data_values(x), 0),
            None => (true, after_head),
        }
    }
}

/// How the frame's layout is put together.
pub proof fn lemma_frame_layout()
    ensures
        frame_layout().len() == 35,
        frame_layout()[0] == Field::Flag(16),
        embeds(frame_layout(), 1, move_layout()),
        frame_layout()[17] == Field::Flag(16),
        embeds(frame_layout(), 18, move_layout()),
        frame_layout()[34] == Field::Bits(10, 16),
        layout_closed(move_layout()),
        move_layout().len() == 16,
{
    let l = frame_layout();
    assert(embeds(l, 1, move_layout()));
    assert(embeds(l, 18, move_layout()));
}

/// How a frame's field values are put together.
pub proof fn lemma_frame_values(f: Frame)
    ensures
        frame_values(f).len() == 35,
        frame_values(f)[0] == flag_value(f.moves@[0] is Some),
        f.moves@[0] matches Some(m) ==> forall|j: int|
            0 <= j < 16 ==> frame_values(f)[1 + j] == #[trigger] move_values(m)[j],
        frame_values(f)[17] == flag_value(f.moves@[1] is Some),
        f.moves@[1] matches Some(m) ==> forall|j: int|
            0 <= j < 16 ==> frame_values(f)[18 + j] == #[trigger] move_values(m)[j],
        frame_values(f)[34] == Some(f.delta as nat),
{
}

impl Frame {
    /// Reads an optional move: a presence flag and, when set, the record.
    fn read_optional_move(bs: &mut BitStream, Ghost(fields): Ghost<Seq<Field>>, Ghost(i): Ghost<nat>) -> (r: Result<Option<Move>, Error>)
        requires
            old(bs)@.wf(),
            i + 1 + 16 <= fields.len(),
            fields[i as int] == Field::Flag(16),
            embeds(fields, i + 1, move_layout()),
            layout_closed(move_layout()),
            move_layout().len() == 16,
        ensures
            final(bs)@.wf(),
            match r {
                Ok(None) => read_fields(old(bs)@, fields, i) == prefixed(
                    seq![Some(0nat)] + absent(16),
                    read_fields(final(bs)@, fields, i + 1 + 16),
                ),
                Ok(Some(x)) => {
                    let vs = read_fields(flag_read_state(old(bs)@), move_layout(), 0).0->Ok_0;
                    &&& read_fields(old(bs)@, fields, i) == prefixed(
                        seq![Some(1nat)] + vs,
                        read_fields(final(bs)@, fields, i + 1 + 16),
                    )
                    &&& x == move_from_values(vs)
                    &&& vs.len() == 16
                },
                Err(e) => read_fields(old(bs)@, fields, i) == (Err::<Seq<Option<nat>>, Error>(e), final(bs)@),
            },
    {
        let ghost s = bs@;
        let ghost t1 = flag_read_state(s);
        let ghost il = move_layout();
        proof {
            lemma_single_bit(s.data, s.pos());
            lemma_read_fields_len(t1, il, 0);
        }
        let f = |b: &mut BitStream| -> (res: Result<Move, Error>)
            requires
                old(b)@.wf(),
            ensures
                record_read_done(old(b)@, final(b)@, res, move_layout(), |vs| move_from_values(vs)),
            { Move::from_stream(b) };
        let r = bs.read_optional(f);
        proof {
            let vs = read_fields(t1, il, 0).0->Ok_0;
            if !read_succeeds(s, 1, 8) {
                lemma_read_optional_embed(s, s, fields, i, il);
            } else {
                lemma_read_optional_embed(s, t1, fields, i, il);
                if read_value(s, 1) != 0 {
                    let res = match r {
                        Ok(Some(t)) => Ok::<Move, Error>(t),
                        Ok(None) => Ok::<Move, Error>(move_from_values(vs)),
                        Err(e) => Err::<Move, Error>(e),
                    };
                    let b = choose|b: &mut BitStream|
                        b@ == t1 && final(b)@ == bs@ && call_ensures(f, (b,), res);
                    assert(record_read_done(t1, bs@, res, il, |vs| move_from_values(vs)));
                    if let Ok(Some(x)) = r {
                        lemma_prefixed_assoc(seq![Some(1nat)], vs, read_fields(bs@, fields, i + 1 + 16));
                    }
                }
            }
        }
        r
    }

    /// Writes an optional move: a presence flag and, when present, the record.
    fn write_optional_move(
        bs: &mut BitStream,
        x: Option<Move>,
        Ghost(fields): Ghost<Seq<Field>>,
        Ghost(vals): Ghost<Seq<Option<nat>>>,
        Ghost(i): Ghost<nat>,
    ) -> (r: Result<(), Error>)
        requires
            old(bs)@.wf(),
            old(bs)@.byte_offset + 32 + 1 <= usize::MAX,
            i + 1 + 16 <= fields.len(),
            i + 1 + 16 <= vals.len(),
            fields[i as int] == Field::Flag(16),
            embeds(fields, i + 1, move_layout()),
            layout_closed(move_layout()),
            move_layout().len() == 16,
            vals[i as int] == flag_value(x is Some),
            x matches Some(y) ==> forall|j: int|
                0 <= j < 16 ==> vals[i + 1 + j] == #[trigger] move_values(y)[j],
        ensures
            final(bs)@.wf(),
            final(bs)@.pos() <= old(bs)@.pos() + 1 + 64 * 16,
            match r {
                Ok(()) => write_fields(old(bs)@, fields, vals, i) == write_fields(final(bs)@, fields, vals, i + 1 + 16),
                Err(e) => e == Error::ValueOverflowsBitCount && write_fields(old(bs)@, fields, vals, i)
                    == (false, final(bs)@),
            },
    {
        let ghost s = bs@;
        let ghost il = move_layout();
        proof {
            assert(layout_ok(il));
        }
        let f = |b: &mut BitStream, y: Move| -> (res: Result<(), Error>)
            requires
                old(b)@.wf(),
                old(b)@.byte_offset + 32 <= usize::MAX,
            ensures
                record_write_done(old(b)@, final(b)@, res, move_layout(), move_values(y)),
            { y.into_stream(b) };
        let r = bs.write_optional(x, f);
        proof {
            match x {
                Some(y) => {
                    lemma_write_optional_embed(s, fields, vals, i, il, move_values(y));
                    let t1 = write_u8_state(s, 1, 1);
                    assert(t1 == write_state(s, 1, 1));
                    let b = choose|b: &mut BitStream|
                        b@ == t1 && final(b)@ == bs@ && call_ensures(f, (b, y), r);
                    assert(record_write_done(t1, bs@, r, il, move_values(y)));
                    lemma_write_fields_pos(t1, il, move_values(y), 0);
                },
                None => {
                    lemma_write_optional_embed(s, fields, vals, i, il, absent(16));
                    assert(write_u8_state(s, 0, 1) == write_state(s, 0, 1));
                },
            }
        }
        r
    }

    /// Reads a frame: two optional moves and the time delta, then extra
    /// data, which is kept when it reads and dropped when its read fails.
    #[verifier::rlimit(30)]
    pub fn from_stream(bs: &mut BitStream) -> (r: Result<Frame, Error>)
        requires
            old(bs)@.wf(),
        ensures
            (r, final(bs)@) == frame_read(old(bs)@),
    {
        let ghost l = frame_layout();
        let ghost whole = read_fields(bs@, l, 0);
        let ghost s0 = bs@;
        proof {
            lemma_frame_layout();
        }
        let move0 = match Frame::read_optional_move(bs, Ghost(l), Ghost(0)) {
            Ok(v) => v,
            Err(e) => {
                return Err(e);
            },
        };
        let ghost v0 = read_fields(flag_read_state(s0), move_layout(), 0).0->Ok_0;
        let ghost mut acc: Seq<Option<nat>> = if move0 is Some {
            seq![Some(1nat)] + v0
        } else {
            seq![Some(0nat)] + absent(16)
        };
        let ghost s1 = bs@;
        let move1 = match Frame::read_optional_move(bs, Ghost(l), Ghost(17)) {
            Ok(v) => v,
            Err(e) => {
                return Err(e);
            },
        };
        let ghost v1 = read_fields(flag_read_state(s1), move_layout(), 0).0->Ok_0;
        let ghost part: Seq<Option<nat>> = if move1 is Some {
            seq![Some(1nat)] + v1
        } else {
            seq![Some(0nat)] + absent(16)
        };
        proof {
            lemma_prefixed_assoc(acc, part, read_fields(bs@, l, 34));
            acc = acc + part;
        }
        let ghost cur = bs@;
        let rd = bs.read_bits_u16(10);
        proof {
            lemma_field_read(whole, acc, cur, bs@, l, 34);
        }
        let delta = match rd {
            Ok(v) => v,
            Err(e) => {
                return Err(e);
            },
        };
        proof {
            acc = acc.push(Some(delta as nat));
            lemma_fields_done(bs@, l, Seq::empty());
            assert(acc + Seq::<Option<nat>>::empty() =~= acc);
            assert(whole == (Ok::<Seq<Option<nat>>, Error>(acc), bs@));
            if move0 is Some {
                assert(acc.subrange(1, 17) =~= v0);
            }
            if move1 is Some {
                assert(acc.subrange(18, 34) =~= v1);
            }
        }
        let extra_data = match ExtraData::from_stream(bs) {
            Ok(x) => Some(x),
            Err(_) => None,
        };
        let f = Frame { moves: [move0, move1], delta, extra_data };
        proof {
            let g = frame_from_values(acc, extra_data);
            assert(f.moves@ =~= g.moves@);
        }
        Ok(f)
    }

    /// Writes a frame in the layout that `from_stream` reads; a value too
    /// wide for its field stops the writing there with an error.
    pub fn into_stream(self, bs: &mut BitStream) -> (r: Result<(), Error>)
        requires
            old(bs)@.wf(),
            old(bs)@.byte_offset + 1024 <= usize::MAX,
        ensures
            final(bs)@ == frame_write(old(bs)@, self).1,
            r is Ok <==> frame_write(old(bs)@, self).0,
            r matches Err(e) ==> e == Error::ValueOverflowsBitCount,
    {
        let ghost l = frame_layout();
        let ghost vals = frame_values(self);
        proof {
            lemma_frame_layout();
            lemma_frame_values(self);
            lemma2_to64();
        }
        let m1 = self.moves[0];
        let m2 = self.moves[1];
        match Frame::write_optional_move(bs, m1, Ghost(l), Ghost(vals), Ghost(0)) {
            Ok(()) => {},
            Err(e) => {
                return Err(e);
            },
        }
        match Frame::write_optional_move(bs, m2, Ghost(l), Ghost(vals), Ghost(17)) {
            Ok(()) => {},
            Err(e) => {
                return Err(e);
            },
        }
        let ghost cur = bs@;
        proof {
            lemma_write_step(cur, l, vals, 34);
        }
        match bs.write_bits_u16(self.delta, 10) {
            Ok(()) => {},
            Err(e) => {
                return Err(e);
            },
        }
        proof {
            lemma_fields_done(bs@, l, vals);
        }
        if let Some(extra_data) = self.extra_data {
            extra_data.into_stream(bs)
        } else {
            Ok(())
        }
    }

    /// Whether either player moved in this frame.
    pub fn has_move(&self) -> (r: bool)
        ensures
            r == (self.moves@[0] is Some || self.moves@[1] is Some),
    {
        self.moves[0].is_some() || self.moves[1].is_some()
    }
}


/// A stream over `data` with the cursor at its start.
pub open spec fn fresh_stream(data: Seq<u8>) -> StreamState {
    StreamState { data, byte_offset: 0, bit_offset: 0 }
}

/// The `length` bytes at the cursor.
pub open spec fn chunk_bytes(s: StreamState, length: nat) -> Seq<u8> {
    Seq::new(length, |k: int| bits_value(s.data, s.pos() + 8 * k, 8) as u8)
}

/// Frames read so far put before a read outcome, when it is a success.
pub open spec fn after_frames(done: Seq<Frame>, r: (Result<Seq<Frame>, Error>, StreamState)) -> (
    Result<Seq<Frame>, Error>,
    StreamState,
) {
    (
        match r.0 {
            Ok(fs) => Ok(done + fs),
            Err(e) => Err(e),
        },
        r.1,
    )
}

/// Reading the frames of a recording from the cursor on. Each frame is a
/// length byte and that many bytes, which are read as a frame of their own.
/// The reading stops with the frames so far at the end of the data, at a
/// zero length, or when the data ends within a frame's bytes at a byte
/// boundary; it fails when a read of a length or of a byte fails, or when a
/// frame's bytes do not read as a frame.
pub open spec fn read_frames(s: StreamState) -> (Result<Seq<Frame>, Error>, StreamState)
    decreases s.data.len() - s.byte_offset,
{
    if s.is_eof() {
        (Ok(Seq::empty()), s)
    } else if !read_succeeds(s, 8, 8) {
        (Err(read_error(s, 8, 8)), s.with_pos(read_end(s, 8, 8)))
    } else {
        let length = read_value(s, 8);
        let u = s.with_pos(s.pos() + 8);
        if length == 0 {
            (Ok(Seq::empty()), u)
        } else {
            let avail = whole_bytes_left(u);
            if length > avail {
                let stop = u.with_pos(u.pos() + 8 * avail);
                if u.byte_offset + avail >= u.data.len() {
                    (Ok(Seq::empty()), stop)
                } else {
                    (Err(Error::ReadEof), stop)
                }
            } else {
                let v = u.with_pos(u.pos() + 8 * length);
                match frame_read(fresh_stream(chunk_bytes(u, length))).0 {
                    Err(e) => (Err(e), v),
                    Ok(f) => after_frames(seq![f], read_frames(v)),
                }
            }
        }
    }
}

/// A recording: the mission's name and its frames.
#[derive(Clone, Debug, PartialEq, Eq)]
pub struct Recording {
    pub mission: String,
    pub frames: Vec<Frame>,
}


/// A frame's bytes, at least four: shorter ones are padded with zeros.
pub open spec fn pad_chunk(bytes: Seq<u8>) -> Seq<u8> {
    if bytes.len() >= 4 {
        bytes
    } else {
        bytes + Seq::new((4 - bytes.len()) as nat, |i: int| 0u8)
    }
}

/// The bytes a frame is stored as within a recording: the frame written to
/// a stream of its own, padded; none when a value does not fit its field.
pub open spec fn frame_chunk(f: Frame) -> Option<Seq<u8>> {
    let (ok, t) = frame_write(fresh_stream(Seq::empty()), f);
    if ok {
        Some(pad_chunk(t.data))
    } else {
        None
    }
}

/// Writing frames of a recording: each as its byte count, cut to eight
/// bits, and its bytes; the writing stops at the first frame with a value
/// that does not fit its field.
pub open spec fn write_frames(s: StreamState, frames: Seq<Frame>) -> (bool, StreamState)
    decreases frames.len(),
{
    if frames.len() == 0 {
        (true, s)
    } else {
        match frame_chunk(frames[0]) {
            None => (false, s),
            Some(c) => write_frames(
                write_bytes_state(write_u8_state(s, (c.len() % 256) as u8, 8), c),
                frames.drop_first(),
            ),
        }
    }
}

/// A frame's bytes within a recording number fewer than 512.
pub proof fn lemma_frame_chunk_len(f: Frame)
    ensures
        frame_chunk(f) matches Some(c) ==> c.len() < 512,
{
    let e = fresh_stream(Seq::empty());
    lemma_frame_layout();
    lemma_extra_data_layout();
    assert(layout_ok(frame_layout()));
    assert(layout_ok(extra_data_layout()));
    lemma_write_fields_pos(e, frame_layout(), frame_values(f), 0);
    lemma_write_fields_compact(e, frame_layout(), frame_values(f), 0);
    let t = write_fields(e, frame_layout(), frame_values(f), 0).1;
    if let Some(x) = f.extra_data {
        lemma_write_fields_pos(t, extra_data_layout(), extra_data_values(x), 0);
        lemma_write_fields_compact(t, extra_data_layout(), extra_data_values(x), 0);
    }
}

impl Recording {
    /// Reads the next frame of a recording: its length byte and bytes, read
    /// as a frame of their own; `None` where the frames end.
    fn read_frame_chunk(bs: &mut BitStream) -> (r: Result<Option<Frame>, Error>)
        requires
            old(bs)@.wf(),
        ensures
            final(bs)@.wf(),
            match r {
                Ok(None) => read_frames(old(bs)@) == (Ok::<Seq<Frame>, Error>(Seq::empty()), final(bs)@),
                Ok(Some(f)) => {
                    &&& read_frames(old(bs)@) == after_frames(seq![f], read_frames(final(bs)@))
                    &&& old(bs)@.byte_offset < final(bs)@.byte_offset <= final(bs)@.data.len()
                    &&& final(bs)@.data.len() == old(bs)@.data.len()
                },
                Err(e) => read_frames(old(bs)@) == (Err::<Seq<Frame>, Error>(e), final(bs)@),
            },
    {
        let ghost s = bs@;
        proof {
            lemma_bit_index(s.byte_offset as int, s.bit_offset as int);
        }
        if bs.eof() {
            return Ok(None);
        }
        let length = match bs.read_u8() {
            Ok(v) => v,
            Err(e) => {
                proof {
                    lemma_bit_index(bs@.byte_offset as int, bs@.bit_offset as int);
                }
                return Err(e);
            },
        };
        let ghost u = bs@;
        proof {
            lemma_bit_index(u.byte_offset as int, u.bit_offset as int);
            assert(u == s.with_pos(s.pos() + 8));
        }
        if length == 0 {
            return Ok(None);
        }
        let mut data: Vec<u8> = Vec::with_capacity(length as usize);
        let mut k: u8 = 0;
        while k < length
            invariant
                old(bs)@ == s,
                s.wf(),
                !s.is_eof(),
                read_succeeds(s, 8, 8),
                length == read_value(s, 8),
                length > 0,
                u == s.with_pos(s.pos() + 8),
                bs@.wf(),
                bs@.data == u.data,
                u.wf(),
                bs@.pos() == u.pos() + 8 * k,
                k <= length,
                k <= whole_bytes_left(u),
                data@ == chunk_bytes(u, length as nat).take(k as int),
            decreases length - k,
        {
            if bs.eof() {
                proof {
                    assert(whole_bytes_left(u) == k);
                    lemma_bit_index(bs@.byte_offset as int, bs@.bit_offset as int);
                    lemma_bit_index(u.byte_offset as int, u.bit_offset as int);
                }
                return Ok(None);
            }
            let byte = match bs.read_u8() {
                Ok(v) => v,
                Err(e) => {
                    proof {
                        assert(whole_bytes_left(u) == k);
                        lemma_bit_index(bs@.byte_offset as int, bs@.bit_offset as int);
                        lemma_bit_index(u.byte_offset as int, u.bit_offset as int);
                    }
                    return Err(e);
                },
            };
            data.push(byte);
            k = k + 1;
            assert(data@ == chunk_bytes(u, length as nat).take(k as int));
        }
        let ghost v = bs@;
        proof {
            assert(data@ == chunk_bytes(u, length as nat));
            lemma_bit_index(v.byte_offset as int, v.bit_offset as int);
            assert(v == u.with_pos(u.pos() + 8 * length));
        }
        let mut inner_stream = BitStream::new(data);
        match Frame::from_stream(&mut inner_stream) {
            Ok(f) => Ok(Some(f)),
            Err(e) => Err(e),
        }
    }

    /// Reads a recording: the mission's name as a string, then frames until
    /// the data or the frames end.
    #[verifier::rlimit(30)]
    pub fn from_stream(bs: &mut BitStream) -> (r: Result<Recording, Error>)
        requires
            old(bs)@.wf(),
        ensures
            !read_string_succeeds(old(bs)@) ==> r == Err::<Recording, Error>(read_string_error(old(bs)@))
                && final(bs)@ == old(bs)@.with_pos(read_string_end(old(bs)@)),
            read_string_succeeds(old(bs)@) ==> {
                let (frames, end) = read_frames(old(bs)@.with_pos(read_string_end(old(bs)@)));
                &&& final(bs)@ == end
                &&& match frames {
                    Ok(fs) => r matches Ok(rec) && rec.mission@ == decode_utf8(string_bytes(old(bs)@))
                        && rec.frames@ == fs,
                    Err(e) => r == Err::<Recording, Error>(e),
                }
            },
    {
        let ghost s0 = bs@;
        let mission = match bs.read_string() {
            Ok(m) => m,
            Err(e) => {
                proof {
                    lemma_bit_index(bs@.byte_offset as int, bs@.bit_offset as int);
                }
                return Err(e);
            },
        };
        let ghost t0 = bs@;
        proof {
            lemma_bit_index(t0.byte_offset as int, t0.bit_offset as int);
            assert(t0 == s0.with_pos(read_string_end(s0)));
            assert(read_frames(t0) == after_frames(Seq::empty(), read_frames(t0))) by {
                if let Ok(fs) = read_frames(t0).0 {
                    assert(Seq::<Frame>::empty() + fs =~= fs);
                }
            }
        }
        let mut frames: Vec<Frame> = Vec::new();
        loop
            invariant
                s0 == old(bs)@,
                t0 == s0.with_pos(read_string_end(s0)),
                bs@.wf(),
                bs@.data.len() == t0.data.len(),
                bs@.byte_offset <= bs@.data.len() || frames@.len() == 0,
                read_string_succeeds(s0),
                mission@ == decode_utf8(string_bytes(s0)),
                read_frames(t0) == after_frames(frames@, read_frames(bs@)),
            decreases bs@.data.len() + 1 - bs@.byte_offset,
        {
            let ghost s = bs@;
            match Recording::read_frame_chunk(bs) {
                Ok(Some(f)) => {
                    proof {
                        if let Ok(fs) = read_frames(bs@).0 {
                            assert(frames@.push(f) + fs =~= frames@ + (seq![f] + fs));
                        }
                    }
                    frames.push(f);
                },
                Ok(None) => {
                    proof {
                        assert(frames@ + Seq::<Frame>::empty() =~= frames@);
                    }
                    return Ok(Recording { mission, frames });
                },
                Err(e) => {
                    return Err(e);
                },
            }
        }
    }

    /// Writes a frame of a recording: the frame is written to a stream of
    /// its own, whose bytes, padded to at least four, are written after
    /// their count cut to eight bits.
    fn write_frame_chunk(bs: &mut BitStream, frame: Frame) -> (r: Result<(), Error>)
        requires
            old(bs)@.wf(),
            old(bs)@.byte_offset + 512 <= usize::MAX,
        ensures
            final(bs)@.wf(),
            match frame_chunk(frame) {
                None => r == Err::<(), Error>(Error::ValueOverflowsBitCount) && final(bs)@ == old(bs)@,
                Some(c) => r is Ok && final(bs)@ == write_bytes_state(
                    write_u8_state(old(bs)@, (c.len() % 256) as u8, 8),
                    c,
                ) && final(bs)@.byte_offset == old(bs)@.byte_offset + 1 + c.len() && c.len() < 512,
            },
    {
        let ghost s = bs@;
        proof {
            lemma_frame_chunk_len(frame);
            lemma2_to64();
        }
        let mut inner_stream = BitStream::new(Vec::new());
        match frame.into_stream(&mut inner_stream) {
            Ok(()) => {},
            Err(e) => {
                return Err(e);
            },
        }
        let bytes = inner_stream.into_bytes();
        let ghost c = pad_chunk(bytes@);
        let len = if bytes.len() > 4 { bytes.len() } else { 4 };
        let extra = len - bytes.len();
        proof {
            assert(c.len() == len);
            assert((len as u8) as nat == len % 256) by (bit_vector);
            lemma_write_state_pos(s, (len % 256) as nat, 8);
        }
        let _ = bs.write_u8(#[verifier::truncate] (len as u8));
        let ghost s1 = bs@;
        let mut j: usize = 0;
        while j < bytes.len()
            invariant
                c == pad_chunk(bytes@),
                c.len() == len,
                len < 512,
                bytes.len() <= len,
                s1.wf(),
                s1.byte_offset == s.byte_offset + 1,
                s.byte_offset + 512 <= usize::MAX,
                j <= bytes.len(),
                bs@ == write_bytes_state(s1, c.take(j as int)),
                bs@.wf(),
                bs@.byte_offset == s1.byte_offset + j,
            decreases bytes.len() - j,
        {
            proof {
                lemma2_to64();
                lemma_write_state_pos(bs@, bytes@[j as int] as nat, 8);
            }
            let ghost before = bs@;
            let _ = bs.write_u8(bytes[j]);
            proof {
                assert(c[j as int] == bytes@[j as int]);
                assert(c.take((j + 1) as int).drop_last() == c.take(j as int));
                assert(c.take((j + 1) as int).last() == c[j as int]);
                assert(bs@ == write_state(before, c[j as int] as nat, 8));
            }
            j = j + 1;
        }
        let mut k: usize = 0;
        while k < extra
            invariant
                c == pad_chunk(bytes@),
                c.len() == len,
                len < 512,
                extra == len - bytes.len(),
                s1.wf(),
                s1.byte_offset == s.byte_offset + 1,
                s.byte_offset + 512 <= usize::MAX,
                k <= extra,
                bs@ == write_bytes_state(s1, c.take(bytes.len() + k)),
                bs@.wf(),
                bs@.byte_offset == s1.byte_offset + bytes.len() + k,
            decreases extra - k,
        {
            proof {
                lemma2_to64();
                lemma_write_state_pos(bs@, 0, 8);
            }
            let ghost before = bs@;
            let _ = bs.write_u8(0);
            proof {
                let m = bytes.len() + k;
                assert(c[m as int] == 0);
                assert(c.take(m + 1).drop_last() == c.take(m as int));
                assert(c.take(m + 1).last() == c[m as int]);
                assert(bs@ == write_state(before, 0, 8));
            }
            k = k + 1;
        }
        proof {
            assert(c.take(len as int) == c);
        }
        Ok(())
    }

    /// Writes a recording in the layout that `from_stream` reads: the
    /// mission's name, then each frame as its byte count and bytes; a frame
    /// with a value too wide for its field stops the writing there with an
    /// error.
    pub fn into_stream(self, bs: &mut BitStream) -> (r: Result<(), Error>)
        requires
            old(bs)@.wf(),
            old(bs)@.byte_offset + 1 + encode_utf8(self.mission@).len() + 512 * self.frames@.len()
                <= usize::MAX,
        ensures
            ({
                let name = encode_utf8(self.mission@);
                let named = write_bytes_state(write_u8_state(old(bs)@, (name.len() % 256) as u8, 8), name);
                &&& final(bs)@ == write_frames(named, self.frames@).1
                &&& (r is Ok <==> write_frames(named, self.frames@).0)
                &&& (r matches Err(e) ==> e == Error::ValueOverflowsBitCount)
            }),
    {
        let ghost s = bs@;
        let ghost mission_view = self.mission@;
        let ghost frames_view = self.frames@;
        let ghost name = encode_utf8(self.mission@);
        let ghost named = write_bytes_state(write_u8_state(s, (name.len() % 256) as u8, 8), name);
        let frames = self.frames;
        proof {
            lemma2_to64();
            lemma_write_state_pos(s, (name.len() % 256) as nat, 8);
            lemma_write_bytes_state_pos(write_u8_state(s, (name.len() % 256) as u8, 8), name);
            assert(frames@.skip(0) == frames@);
        }
        let _ = bs.write_string(self.mission);
        let mut i: usize = 0;
        while i < frames.len()
            invariant
                i <= frames.len(),
                frames@ == frames_view,
                frames_view == self.frames@,
                mission_view == self.mission@,
                name == encode_utf8(mission_view),
                named == write_bytes_state(write_u8_state(old(bs)@, (name.len() % 256) as u8, 8), name),
                bs@.wf(),
                bs@.byte_offset + 512 * (frames.len() - i) <= usize::MAX,
                write_frames(named, frames@) == write_frames(bs@, frames@.skip(i as int)),
            decreases frames.len() - i,
        {
            let ghost cur = bs@;
            proof {
                assert(frames@.skip(i as int)[0] == frames@[i as int]);
                assert(frames@.skip(i as int).drop_first() == frames@.skip(i + 1));
            }
            match Recording::write_frame_chunk(bs, frames[i]) {
                Ok(()) => {},
                Err(e) => {
                    return Err(e);
                },
            }
            i = i + 1;
        }
        proof {
            assert(frames@.skip(i as int) == Seq::<Frame>::empty());
        }
        Ok(())
    }
}

} // verus!
