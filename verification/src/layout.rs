use vstd::prelude::*;
use vstd::arithmetic::power2::{pow2, lemma2_to64};
use crate::error::Error;
use crate::bits::lemma_bit_index;
use crate::model::{StreamState, compact, lemma_write_state_compact, lemma_write_state_pos, read_end, read_error, read_succeeds, read_value, write_state};

verus! {

/// How one field of a record is stored.
pub enum Field {
    /// An unsigned value of the first count of bits, read into an integer
    /// of the second count of bits.
    Bits(nat, nat),
    /// A presence flag of one bit; when it is clear, the given number of
    /// fields that follow are absent and take no bits.
    Flag(nat),
}

/// The number of bits a field takes when present.
pub open spec fn field_bits(f: Field) -> nat {
    match f {
        Field::Bits(n, _) => n,
        Field::Flag(_) => 1,
    }
}

/// The width of the integer a field is read into.
pub open spec fn field_width(f: Field) -> nat {
    match f {
        Field::Bits(_, w) => w,
        Field::Flag(_) => 8,
    }
}

/// The number of fields after field `i` that its value `v` makes absent.
pub open spec fn field_skip(fields: Seq<Field>, i: int, v: nat) -> nat {
    match fields[i] {
        Field::Flag(k) => if v == 0 {
            if k <= fields.len() - 1 - i {
                k
            } else {
                (fields.len() - 1 - i) as nat
            }
        } else {
            0
        },
        Field::Bits(_, _) => 0,
    }
}

/// Reading the fields from index `i` on, at the cursor of `s`: the values
/// read, `None` for each absent field, or the error of the first read that
/// fails; and the stream after the reads.
#[verifier::opaque]
pub open spec fn read_fields(s: StreamState, fields: Seq<Field>, i: nat) -> (Result<
    Seq<Option<nat>>,
    Error,
>, StreamState)
    decreases fields.len() - i,
{
    if i >= fields.len() {
        (Ok(Seq::empty()), s)
    } else {
        let n = field_bits(fields[i as int]);
        let w = field_width(fields[i as int]);
        if !read_succeeds(s, n, w) {
            (Err(read_error(s, n, w)), s.with_pos(read_end(s, n, w)))
        } else {
            let v = read_value(s, n);
            let skip = field_skip(fields, i as int, v);
            let rest = read_fields(s.with_pos(s.pos() + n), fields, i + 1 + skip);
            (
                match rest.0 {
                    Ok(vs) => Ok(seq![Some(v)] + Seq::new(skip, |j: int| None::<nat>) + vs),
                    Err(e) => Err(e),
                },
                rest.1,
            )
        }
    }
}

/// Writing the values of the fields from index `i` on, at the cursor of
/// `s`, an absent value counting as zero: whether every value fitted its
/// field, and the stream after the writes, which stop at the first value
/// that does not fit.
#[verifier::opaque]
pub open spec fn write_fields(s: StreamState, fields: Seq<Field>, vals: Seq<Option<nat>>, i: nat) -> (
    bool,
    StreamState,
)
    decreases fields.len() - i,
{
    if i >= fields.len() {
        (true, s)
    } else {
        let n = field_bits(fields[i as int]);
        let v = match vals[i as int] {
            Some(v) => v,
            None => 0,
        };
        if v >= pow2(n) {
            (false, s)
        } else {
            write_fields(write_state(s, v, n), fields, vals, i + 1 + field_skip(fields, i as int, v))
        }
    }
}

/// Every field fits the integer it is read into, and that integer is one
/// the stream reads.
pub open spec fn layout_ok(fields: Seq<Field>) -> bool {
    forall|i: int|
        0 <= i < fields.len() ==> match #[trigger] fields[i] {
            Field::Bits(n, w) => 1 <= n <= w && (w == 8 || w == 16 || w == 32 || w == 64),
            Field::Flag(_) => true,
        }
}

/// The values from index `i` on fit the fields: each field reached is
/// present and its value fits its bits, and the fields its flag hides are
/// absent.
pub open spec fn values_fit(fields: Seq<Field>, vals: Seq<Option<nat>>, i: nat) -> bool
    decreases fields.len() - i,
{
    if i >= fields.len() {
        true
    } else {
        match vals[i as int] {
            None => false,
            Some(v) => {
                let skip = field_skip(fields, i as int, v);
                &&& v < pow2(field_bits(fields[i as int]))
                &&& forall|j: int| i + 1 <= j < i + 1 + skip ==> vals[j] is None
                &&& values_fit(fields, vals, i + 1 + skip)
            },
        }
    }
}

/// A read outcome with `pre` put before the values read, when it is a
/// success.
pub open spec fn prefixed(pre: Seq<Option<nat>>, r: (Result<Seq<Option<nat>>, Error>, StreamState)) -> (
    Result<Seq<Option<nat>>, Error>,
    StreamState,
) {
    (
        match r.0 {
            Ok(vs) => Ok(pre + vs),
            Err(e) => Err(e),
        },
        r.1,
    )
}

/// `count` absent values.
pub open spec fn absent(count: nat) -> Seq<Option<nat>> {
    Seq::new(count, |j: int| None::<nat>)
}

/// Reading field `i` and then the rest: when the field's read fails that is
/// the outcome, else its value and the values it hides come before the
/// outcome of reading on from where it ended.
pub proof fn lemma_read_step(s: StreamState, t: StreamState, fields: Seq<Field>, i: nat)
    requires
        i < fields.len(),
        s.wf(),
        t.wf(),
        t.data == s.data,
        t.pos() == read_end(s, field_bits(fields[i as int]), field_width(fields[i as int])),
    ensures
        ({
            let n = field_bits(fields[i as int]);
            let w = field_width(fields[i as int]);
            let v = read_value(s, n);
            let skip = field_skip(fields, i as int, v);
            &&& !read_succeeds(s, n, w) ==> read_fields(s, fields, i) == (
                Err::<Seq<Option<nat>>, Error>(read_error(s, n, w)),
                t,
            )
            &&& read_succeeds(s, n, w) ==> read_fields(s, fields, i) == prefixed(
                seq![Some(v)] + absent(skip),
                read_fields(t, fields, i + 1 + skip),
            )
        }),
{
    reveal(read_fields);
    lemma_bit_index(t.byte_offset as int, t.bit_offset as int);
}

/// Putting `a` and then `b` before an outcome is putting `a + b` before it.
pub proof fn lemma_prefixed_assoc(
    a: Seq<Option<nat>>,
    b: Seq<Option<nat>>,
    r: (Result<Seq<Option<nat>>, Error>, StreamState),
)
    ensures
        prefixed(a, prefixed(b, r)) == prefixed(a + b, r),
{
    if let Ok(vs) = r.0 {
        assert(a + (b + vs) =~= (a + b) + vs);
    }
}

/// One more field that hides nothing read during a record read: on
/// success its value joins those read so far, on failure its error ends the
/// record read.
pub proof fn lemma_field_read(
    whole: (Result<Seq<Option<nat>>, Error>, StreamState),
    acc: Seq<Option<nat>>,
    cur: StreamState,
    t: StreamState,
    fields: Seq<Field>,
    k: nat,
)
    requires
        k < fields.len(),
        fields[k as int] is Bits,
        whole == prefixed(acc, read_fields(cur, fields, k)),
        cur.wf(),
        t.wf(),
        t.data == cur.data,
        t.pos() == read_end(cur, field_bits(fields[k as int]), field_width(fields[k as int])),
    ensures
        ({
            let n = field_bits(fields[k as int]);
            let w = field_width(fields[k as int]);
            &&& read_succeeds(cur, n, w) ==> whole == prefixed(
                acc.push(Some(read_value(cur, n))),
                read_fields(t, fields, k + 1),
            )
            &&& !read_succeeds(cur, n, w) ==> whole == (
                Err::<Seq<Option<nat>>, Error>(read_error(cur, n, w)),
                t,
            )
        }),
{
    let n = field_bits(fields[k as int]);
    let w = field_width(fields[k as int]);
    lemma_read_step(cur, t, fields, k);
    if read_succeeds(cur, n, w) {
        let v = read_value(cur, n);
        lemma_prefixed_assoc(acc, seq![Some(v)] + absent(0), read_fields(t, fields, k + 1));
        assert(acc + (seq![Some(v)] + absent(0)) =~= acc.push(Some(v)));
    }
}

/// The value written for field `i`: an absent value counts as zero.
pub open spec fn written_value(vals: Seq<Option<nat>>, i: int) -> nat {
    match vals[i] {
        Some(v) => v,
        None => 0,
    }
}

/// Writing field `i` and then the rest: a value that does not fit stops the
/// writes there; else the field is written and the writes go on after the
/// fields its value hides.
pub proof fn lemma_write_step(s: StreamState, fields: Seq<Field>, vals: Seq<Option<nat>>, i: nat)
    requires
        i < fields.len(),
        s.wf(),
    ensures
        ({
            let n = field_bits(fields[i as int]);
            let v = written_value(vals, i as int);
            &&& v >= pow2(n) ==> write_fields(s, fields, vals, i) == (false, s)
            &&& v < pow2(n) ==> write_fields(s, fields, vals, i) == write_fields(
                write_state(s, v, n),
                fields,
                vals,
                i + 1 + field_skip(fields, i as int, v),
            )
            &&& write_state(s, v, n).wf()
            &&& write_state(s, v, n).pos() == s.pos() + n
        }),
{
    reveal(write_fields);
    lemma_write_state_pos(s, written_value(vals, i as int), field_bits(fields[i as int]));
}

/// Past the last field there is nothing to write or read.
pub proof fn lemma_fields_done(s: StreamState, fields: Seq<Field>, vals: Seq<Option<nat>>)
    ensures
        write_fields(s, fields, vals, fields.len()) == (true, s),
        read_fields(s, fields, fields.len()) == (Ok::<Seq<Option<nat>>, Error>(Seq::empty()), s),
{
    reveal(write_fields);
    reveal(read_fields);
}

/// No flag of the fields hides fields past their end.
pub open spec fn layout_closed(fields: Seq<Field>) -> bool {
    forall|j: int|
        0 <= j < fields.len() ==> match #[trigger] fields[j] {
            Field::Flag(k) => j + k < fields.len(),
            Field::Bits(_, _) => true,
        }
}

/// `inner` stands in `fields` from index `off` on.
pub open spec fn embeds(fields: Seq<Field>, off: nat, inner: Seq<Field>) -> bool {
    &&& off + inner.len() <= fields.len()
    &&& forall|i: int| 0 <= i < inner.len() ==> fields[off + i] == #[trigger] inner[i]
}

/// A read outcome followed, when it is a success, by reading the fields
/// from index `i` on.
pub open spec fn then_read(r: (Result<Seq<Option<nat>>, Error>, StreamState), fields: Seq<Field>, i: nat) -> (
    Result<Seq<Option<nat>>, Error>,
    StreamState,
) {
    match r.0 {
        Ok(vs) => prefixed(vs, read_fields(r.1, fields, i)),
        Err(e) => (Err(e), r.1),
    }
}

/// A write outcome followed, when it is a success, by writing the fields
/// from index `i` on.
pub open spec fn then_write(r: (bool, StreamState), fields: Seq<Field>, vals: Seq<Option<nat>>, i: nat) -> (
    bool,
    StreamState,
) {
    if r.0 {
        write_fields(r.1, fields, vals, i)
    } else {
        r
    }
}

/// A read of the fields from index `i` on leaves the data as it was and
/// the cursor a true bit position, and when it succeeds gives one value
/// per field.
pub proof fn lemma_read_fields_len(s: StreamState, fields: Seq<Field>, i: nat)
    requires
        i <= fields.len(),
        s.wf(),
    ensures
        read_fields(s, fields, i).0 matches Ok(vs) ==> vs.len() == fields.len() - i,
        read_fields(s, fields, i).1.wf(),
        read_fields(s, fields, i).1.data == s.data,
    decreases fields.len() - i,
{
    reveal(read_fields);
    if i < fields.len() {
        let n = field_bits(fields[i as int]);
        let v = read_value(s, n);
        let skip = field_skip(fields, i as int, v);
        lemma_read_fields_len(s.with_pos(s.pos() + n), fields, i + 1 + skip);
    }
}

/// Reading a record whose fields contain those of an inner record is
/// reading the inner record's fields and then the rest.
pub proof fn lemma_read_embed(s: StreamState, fields: Seq<Field>, off: nat, inner: Seq<Field>, j: nat)
    requires
        embeds(fields, off, inner),
        layout_closed(inner),
        j <= inner.len(),
    ensures
        read_fields(s, fields, off + j) == then_read(read_fields(s, inner, j), fields, off + inner.len()),
    decreases inner.len() - j,
{
    reveal(read_fields);
    if j == inner.len() {
        if let Ok(vs) = read_fields(s, fields, off + j).0 {
            assert(Seq::<Option<nat>>::empty() + vs =~= vs);
        }
    } else {
        let f = inner[j as int];
        assert(fields[(off + j) as int] == f);
        let n = field_bits(f);
        let w = field_width(f);
        if read_succeeds(s, n, w) {
            let v = read_value(s, n);
            let skip = field_skip(inner, j as int, v);
            assert(match f {
                Field::Flag(k) => j + k < inner.len(),
                Field::Bits(_, _) => true,
            });
            assert(field_skip(fields, (off + j) as int, v) == skip);
            let t = s.with_pos(s.pos() + n);
            lemma_read_embed(t, fields, off, inner, j + 1 + skip);
            assert(off + j + 1 + skip == off + (j + 1 + skip));
            let pre = seq![Some(v)] + absent(skip);
            match read_fields(t, inner, j + 1 + skip).0 {
                Ok(vs) => {
                    lemma_prefixed_assoc(pre, vs, read_fields(read_fields(t, inner, j + 1 + skip).1, fields, off + inner.len()));
                },
                Err(e) => {},
            }
        }
    }
}

/// Writing a record whose fields contain those of an inner record is
/// writing the inner record's fields and then the rest.
pub proof fn lemma_write_embed(
    s: StreamState,
    fields: Seq<Field>,
    vals: Seq<Option<nat>>,
    off: nat,
    inner: Seq<Field>,
    inner_vals: Seq<Option<nat>>,
    j: nat,
)
    requires
        embeds(fields, off, inner),
        layout_closed(inner),
        off + inner.len() <= vals.len(),
        inner_vals.len() == inner.len(),
        forall|i: int| 0 <= i < inner.len() ==> vals[off + i] == #[trigger] inner_vals[i],
        j <= inner.len(),
    ensures
        write_fields(s, fields, vals, off + j) == then_write(
            write_fields(s, inner, inner_vals, j),
            fields,
            vals,
            off + inner.len(),
        ),
    decreases inner.len() - j,
{
    reveal(write_fields);
    if j < inner.len() {
        let f = inner[j as int];
        assert(fields[(off + j) as int] == f);
        assert(vals[(off + j) as int] == inner_vals[j as int]);
        let n = field_bits(f);
        let v = written_value(inner_vals, j as int);
        if v < pow2(n) {
            let skip = field_skip(inner, j as int, v);
            assert(match f {
                Field::Flag(k) => j + k < inner.len(),
                Field::Bits(_, _) => true,
            });
            assert(field_skip(fields, (off + j) as int, v) == skip);
            lemma_write_embed(write_state(s, v, n), fields, vals, off, inner, inner_vals, j + 1 + skip);
            assert(off + j + 1 + skip == off + (j + 1 + skip));
        }
    }
}

/// Putting nothing before an outcome leaves it as it is.
pub proof fn lemma_prefixed_empty(r: (Result<Seq<Option<nat>>, Error>, StreamState))
    ensures
        prefixed(Seq::empty(), r) == r,
{
    if let Ok(vs) = r.0 {
        assert(Seq::<Option<nat>>::empty() + vs =~= vs);
    }
}

/// Reading an optional inner record: a failed flag read is the outcome; a
/// clear flag makes the inner record's fields absent; a set flag is
/// followed by the inner record's fields and then the rest.
pub proof fn lemma_read_optional_embed(s: StreamState, t: StreamState, fields: Seq<Field>, i: nat, inner: Seq<Field>)
    requires
        i < fields.len(),
        fields[i as int] == Field::Flag(inner.len()),
        embeds(fields, i + 1, inner),
        layout_closed(inner),
        s.wf(),
        t.wf(),
        t.data == s.data,
        t.pos() == read_end(s, 1, 8),
    ensures
        !read_succeeds(s, 1, 8) ==> read_fields(s, fields, i) == (
            Err::<Seq<Option<nat>>, Error>(read_error(s, 1, 8)),
            t,
        ),
        read_succeeds(s, 1, 8) && read_value(s, 1) == 0 ==> read_fields(s, fields, i) == prefixed(
            seq![Some(0nat)] + absent(inner.len()),
            read_fields(t, fields, i + 1 + inner.len()),
        ),
        read_succeeds(s, 1, 8) && read_value(s, 1) != 0 ==> read_fields(s, fields, i) == prefixed(
            seq![Some(read_value(s, 1))],
            then_read(read_fields(t, inner, 0), fields, i + 1 + inner.len()),
        ),
{
    lemma_read_step(s, t, fields, i);
    if read_succeeds(s, 1, 8) && read_value(s, 1) != 0 {
        lemma_read_embed(t, fields, i + 1, inner, 0);
        assert(seq![Some(read_value(s, 1))] + absent(0) =~= seq![Some(read_value(s, 1))]);
    }
}

/// Writing an optional inner record: a clear flag is written and the inner
/// record's fields skipped; or a set flag, then the inner record's fields,
/// then the rest.
pub proof fn lemma_write_optional_embed(
    s: StreamState,
    fields: Seq<Field>,
    vals: Seq<Option<nat>>,
    i: nat,
    inner: Seq<Field>,
    inner_vals: Seq<Option<nat>>,
)
    requires
        i < fields.len(),
        fields[i as int] == Field::Flag(inner.len()),
        embeds(fields, i + 1, inner),
        layout_closed(inner),
        s.wf(),
        i + 1 + inner.len() <= vals.len(),
        inner_vals.len() == inner.len(),
        vals[i as int] == Some(0nat) || vals[i as int] == Some(1nat),
        vals[i as int] == Some(1nat) ==> forall|j: int|
            0 <= j < inner.len() ==> vals[i + 1 + j] == #[trigger] inner_vals[j],
    ensures
        write_state(s, 0, 1).wf(),
        write_state(s, 0, 1).pos() == s.pos() + 1,
        write_state(s, 1, 1).wf(),
        write_state(s, 1, 1).pos() == s.pos() + 1,
        vals[i as int] == Some(0nat) ==> write_fields(s, fields, vals, i) == write_fields(
            write_state(s, 0, 1),
            fields,
            vals,
            i + 1 + inner.len(),
        ),
        vals[i as int] == Some(1nat) ==> write_fields(s, fields, vals, i) == then_write(
            write_fields(write_state(s, 1, 1), inner, inner_vals, 0),
            fields,
            vals,
            i + 1 + inner.len(),
        ),
{
    lemma2_to64();
    lemma_write_state_pos(s, 0, 1);
    lemma_write_state_pos(s, 1, 1);
    lemma_write_step(s, fields, vals, i);
    if vals[i as int] == Some(1nat) {
        lemma_write_embed(write_state(s, 1, 1), fields, vals, i + 1, inner, inner_vals, 0);
    }
}

/// Writing fields only moves the cursor forward, by at most 64 bits a
/// field.
pub proof fn lemma_write_fields_pos(s: StreamState, fields: Seq<Field>, vals: Seq<Option<nat>>, i: nat)
    requires
        s.wf(),
        layout_ok(fields),
        i <= fields.len(),
    ensures
        write_fields(s, fields, vals, i).1.wf(),
        s.pos() <= write_fields(s, fields, vals, i).1.pos(),
        write_fields(s, fields, vals, i).1.pos() <= s.pos() + 64 * (fields.len() - i),
    decreases fields.len() - i,
{
    reveal(write_fields);
    if i < fields.len() {
        let n = field_bits(fields[i as int]);
        let v = written_value(vals, i as int);
        assert(match fields[i as int] {
            Field::Bits(n, w) => 1 <= n <= w && (w == 8 || w == 16 || w == 32 || w == 64),
            Field::Flag(_) => true,
        });
        lemma_write_state_pos(s, v, n);
        lemma_write_fields_pos(write_state(s, v, n), fields, vals, i + 1 + field_skip(fields, i as int, v));
    }
}

/// Writing fields keeps a compact stream compact.
pub proof fn lemma_write_fields_compact(s: StreamState, fields: Seq<Field>, vals: Seq<Option<nat>>, i: nat)
    requires
        s.wf(),
        compact(s),
    ensures
        compact(write_fields(s, fields, vals, i).1),
    decreases fields.len() - i,
{
    reveal(write_fields);
    if i < fields.len() {
        let n = field_bits(fields[i as int]);
        let v = written_value(vals, i as int);
        lemma_write_state_pos(s, v, n);
        lemma_write_state_compact(s, v, n);
        lemma_write_fields_compact(write_state(s, v, n), fields, vals, i + 1 + field_skip(fields, i as int, v));
    }
}

} // verus!
