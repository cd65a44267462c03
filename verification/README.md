# librec

A reader and writer for Torque game recordings, built on a bit stream that
packs values least significant bit first.

The library in `src/` is written in Verus and every function in it is proved
against its contract:

- `bit_stream`: the bit stream itself (bit reads and writes of up to 64 bits,
  booleans, length-prefixed strings, optional values);
- `model`, `bits`: the mathematical model the contracts speak of (the stream
  as a byte sequence with a cursor, and the value of a run of bits);
- `layout`: a record layout as a list of fields, with what reading and
  writing a layout does;
- `recording`: moves, speedrun headers, physics data, extra data, frames and
  whole recordings, with values held as the integers that are stored;
- `laws`: what holds across calls, such as that a value written at the end
  of a stream reads back unchanged, up to a whole recording.

`app/` holds what the verified library leaves out: the floating-point view of
the recording types (angles, movement axes, speedrun and physics floats), the
scaled float reads and writes, and serde support for those types.
