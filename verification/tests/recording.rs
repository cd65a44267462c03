use librec::bit_stream::BitStream;
use librec::error::Error;
use librec::recording::{ExtraData, Frame, Move, PhysicsData, Recording, SpeedrunHeader};

fn sample_move() -> Move {
    Move {
        yaw: Some(0x1234),
        pitch: None,
        roll: None,
        mx: 16,
        my: 16,
        mz: 16,
        freelook: true,
        triggers: [true, false, false, false, false, false],
    }
}

fn sample_header() -> SpeedrunHeader {
    SpeedrunHeader {
        version_major: 1,
        version_minor: 2,
        reference_system_time: 0x0102_0304_0506_0708,
        epoch_offset: 42,
        resolution_horz: 1920,
        resolution_vert: 1080,
        fov: 90.0f32.to_bits(),
        fps: 60.0f32.to_bits(),
    }
}

fn sample_physics() -> PhysicsData {
    PhysicsData {
        position_x: 1.5f64.to_bits(),
        position_y: (-2.25f64).to_bits(),
        position_z: 0.0f64.to_bits(),
        velocity_x: 3.0f64.to_bits(),
        velocity_y: 4.0f64.to_bits(),
        velocity_z: 5.0f64.to_bits(),
        angular_velocity_x: 6.0f64.to_bits(),
        angular_velocity_y: 7.0f64.to_bits(),
        angular_velocity_z: 8.0f64.to_bits(),
    }
}

#[test]
fn move_exact_bytes() {
    let mut bs = BitStream::new(vec![]);
    assert_eq!(sample_move().into_stream(&mut bs), Ok(()));
    assert_eq!(bs.bytes(), &vec![0x69, 0x24, 0x80, 0x20, 0x68, 0x00]);
}

#[test]
fn move_roundtrip() {
    let mut bs = BitStream::new(vec![]);
    let m = Move {
        yaw: Some(65535),
        pitch: Some(0),
        roll: Some(32768),
        mx: 0,
        my: 63,
        mz: 17,
        freelook: false,
        triggers: [false, true, false, true, true, false],
    };
    assert_eq!(m.into_stream(&mut bs), Ok(()));
    bs.seek(0, 0);
    assert_eq!(Move::from_stream(&mut bs), Ok(m));
}

#[test]
fn move_angle_too_wide() {
    let mut bs = BitStream::new(vec![]);
    let m = Move { yaw: Some(65536), ..sample_move() };
    assert_eq!(m.into_stream(&mut bs), Err(Error::ValueOverflowsBitCount));
    // only the presence flag was written
    assert_eq!(bs.into_bytes(), vec![1]);
}

#[test]
fn move_truncated_data() {
    let mut bs = BitStream::new(vec![0x69, 0x24]);
    assert_eq!(Move::from_stream(&mut bs), Err(Error::ReadEof));
}

#[test]
fn header_and_physics_roundtrip() {
    let mut bs = BitStream::new(vec![]);
    assert_eq!(sample_header().into_stream(&mut bs), Ok(()));
    assert_eq!(sample_physics().into_stream(&mut bs), Ok(()));
    assert_eq!(bs.bytes().len(), 30 + 72);
    bs.seek(0, 0);
    assert_eq!(SpeedrunHeader::from_stream(&mut bs), Ok(sample_header()));
    assert_eq!(PhysicsData::from_stream(&mut bs), Ok(sample_physics()));
    assert!(bs.eof());
}

#[test]
fn extra_data_roundtrip() {
    let x = ExtraData {
        speedrun_header: Some(sample_header()),
        sys_time_delta: Some(0xab_cdef),
        game_elapsed: None,
        physics_data: Some(sample_physics()),
    };
    let mut bs = BitStream::new(vec![]);
    assert_eq!(x.into_stream(&mut bs), Ok(()));
    bs.seek(0, 0);
    assert_eq!(ExtraData::from_stream(&mut bs), Ok(x));
}

#[test]
fn extra_data_empty_is_an_error() {
    let x = ExtraData { speedrun_header: None, sys_time_delta: None, game_elapsed: None, physics_data: None };
    let mut bs = BitStream::new(vec![]);
    assert_eq!(x.into_stream(&mut bs), Ok(()));
    assert_eq!(bs.bytes(), &vec![0]);
    bs.seek(0, 0);
    assert_eq!(ExtraData::from_stream(&mut bs), Err(Error::Empty));
}

#[test]
fn extra_data_time_too_wide() {
    let x = ExtraData { speedrun_header: None, sys_time_delta: Some(1 << 24), game_elapsed: None, physics_data: None };
    let mut bs = BitStream::new(vec![]);
    assert_eq!(x.into_stream(&mut bs), Err(Error::ValueOverflowsBitCount));
}

#[test]
fn frame_roundtrip_with_and_without_extra_data() {
    let with_extra = Frame {
        moves: [Some(sample_move()), None],
        delta: 1023,
        extra_data: Some(ExtraData {
            speedrun_header: None,
            sys_time_delta: Some(16),
            game_elapsed: Some(32),
            physics_data: None,
        }),
    };
    let without_extra = Frame { moves: [None, Some(sample_move())], delta: 16, extra_data: None };
    for f in [with_extra, without_extra] {
        let mut bs = BitStream::new(vec![]);
        assert_eq!(f.into_stream(&mut bs), Ok(()));
        bs.seek(0, 0);
        assert_eq!(Frame::from_stream(&mut bs), Ok(f));
    }
}

#[test]
fn frame_with_empty_extra_data_reads_without_it() {
    let f = Frame {
        moves: [None, None],
        delta: 5,
        extra_data: Some(ExtraData { speedrun_header: None, sys_time_delta: None, game_elapsed: None, physics_data: None }),
    };
    let mut bs = BitStream::new(vec![]);
    assert_eq!(f.into_stream(&mut bs), Ok(()));
    bs.seek(0, 0);
    assert_eq!(Frame::from_stream(&mut bs), Ok(Frame { extra_data: None, ..f }));
}

#[test]
fn frame_delta_too_wide() {
    let f = Frame { moves: [None, None], delta: 1024, extra_data: None };
    let mut bs = BitStream::new(vec![]);
    assert_eq!(f.into_stream(&mut bs), Err(Error::ValueOverflowsBitCount));
}

#[test]
fn frame_has_move() {
    let f = Frame { moves: [None, None], delta: 0, extra_data: None };
    assert!(!f.has_move());
    assert!(Frame { moves: [None, Some(sample_move())], ..f }.has_move());
    assert!(Frame { moves: [Some(sample_move()), None], ..f }.has_move());
}

fn sample_recording() -> Recording {
    Recording {
        mission: String::from("Learn the Super Jump"),
        frames: vec![
            Frame { moves: [Some(sample_move()), None], delta: 16, extra_data: None },
            Frame {
                moves: [None, None],
                delta: 17,
                extra_data: Some(ExtraData {
                    speedrun_header: Some(sample_header()),
                    sys_time_delta: None,
                    game_elapsed: Some(1000),
                    physics_data: Some(sample_physics()),
                }),
            },
            Frame { moves: [None, None], delta: 0, extra_data: None },
        ],
    }
}

#[test]
fn recording_roundtrip() {
    let mut bs = BitStream::new(vec![]);
    assert_eq!(sample_recording().into_stream(&mut bs), Ok(()));
    let bytes = bs.into_bytes();
    assert_eq!(bytes[0] as usize, "Learn the Super Jump".len());
    let mut bs = BitStream::new(bytes);
    assert_eq!(Recording::from_stream(&mut bs), Ok(sample_recording()));
    assert!(bs.eof());
}

#[test]
fn recording_frame_padding() {
    let rec = Recording {
        mission: String::new(),
        frames: vec![Frame { moves: [None, None], delta: 3, extra_data: None }],
    };
    let mut bs = BitStream::new(vec![]);
    assert_eq!(rec.into_stream(&mut bs), Ok(()));
    // empty name, then a frame of two bytes padded to four
    assert_eq!(bs.into_bytes(), vec![0, 4, 0x0c, 0, 0, 0]);
}

#[test]
fn recording_stops_at_zero_length_and_truncation() {
    let mut bs = BitStream::new(vec![1, b'a', 4, 0x0c, 0, 0, 0, 0, 9, 9]);
    let rec = Recording::from_stream(&mut bs).unwrap();
    assert_eq!(rec.mission, "a");
    assert_eq!(rec.frames, vec![Frame { moves: [None, None], delta: 3, extra_data: None }]);
    // a frame whose bytes run past the end ends the frames
    let mut bs = BitStream::new(vec![0, 4, 0x0c, 0, 0, 0, 10, 1]);
    let rec = Recording::from_stream(&mut bs).unwrap();
    assert_eq!(rec.frames.len(), 1);
    assert!(bs.eof());
}

#[test]
fn recording_errors() {
    let mut bs = BitStream::new(vec![5, b'a']);
    assert_eq!(Recording::from_stream(&mut bs), Err(Error::ReadEof));
    let mut bs = BitStream::new(vec![1, 0xff]);
    assert_eq!(Recording::from_stream(&mut bs), Err(Error::InvalidUtf8));
    // a frame's bytes that do not read as a frame
    let mut bs = BitStream::new(vec![0, 1, 0xff]);
    assert_eq!(Recording::from_stream(&mut bs), Err(Error::ReadEof));
}

#[test]
fn every_angle_code_roundtrips() {
    for code in 0u64..65536 {
        let mv = Move {
            yaw: Some(code),
            pitch: None,
            roll: None,
            mx: 16,
            my: 16,
            mz: 16,
            freelook: false,
            triggers: [false; 6],
        };
        let mut bs = BitStream::new(vec![]);
        assert_eq!(mv.clone().into_stream(&mut bs), Ok(()));
        bs.seek(0, 0);
        assert_eq!(Move::from_stream(&mut bs), Ok(mv));
    }
}
