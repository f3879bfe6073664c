use mot::FrameData;
use mot::InterpKeyframe;
use mot::Keyframe;
use mot::Motion;
use mot::read::many_until;
use mot::read::many_until_nth;
use mot::write::WriteError;

fn sample_motion() -> Motion {
    Motion {
        sets: vec![
            FrameData::Empty,
            FrameData::Pose(1.0f32.to_bits()),
            FrameData::Linear(vec![
                Keyframe { frame: 0, value: 0.0f32.to_bits() },
                Keyframe { frame: 10, value: 5.0f32.to_bits() },
            ]),
            FrameData::Smooth(vec![InterpKeyframe {
                keyframe: Keyframe { frame: 0, value: 0.0f32.to_bits() },
                interpolation: 0.0f32.to_bits(),
            }]),
        ],
        bones: vec![1, 2, 0, 3],
    }
}

#[test]
fn motion_roundtrip() {
    let m = sample_motion();
    let bytes = m.write().unwrap();
    let back = Motion::parse(&bytes).unwrap();
    assert_eq!(back, m);
}

#[test]
fn roundtrip_many_channels() {
    let mut sets: Vec<FrameData> = Vec::new();
    for k in 0..23u16 {
        match k % 4 {
            0 => sets.push(FrameData::Empty),
            1 => sets.push(FrameData::Pose((k as f32).to_bits())),
            2 => sets.push(FrameData::Linear(vec![
                Keyframe { frame: k, value: (k as f32).to_bits() },
                Keyframe { frame: k + 5, value: (-1.5f32).to_bits() },
                Keyframe { frame: k + 9, value: 2.25f32.to_bits() },
            ])),
            _ => sets.push(FrameData::Smooth(vec![InterpKeyframe {
                keyframe: Keyframe { frame: k + 1, value: 0.5f32.to_bits() },
                interpolation: 0.125f32.to_bits(),
            }])),
        }
    }
    let m = Motion { sets, bones: vec![3, 1, 4, 1, 5, 9, 2, 6] };
    let bytes = m.write().unwrap();
    let back = Motion::parse(&bytes).unwrap();
    assert_eq!(back, m);
}

#[test]
fn header_layout() {
    let m = sample_motion();
    let bytes = m.write().unwrap();
    // The first two 32-bit words are the format constants 32 and 36.
    assert_eq!(&bytes[0..4], &[32, 0, 0, 0]);
    assert_eq!(&bytes[4..8], &[36, 0, 0, 0]);
    // The count field is the channel count plus one plus 0x3FFF.
    let count_field = u16::from_le_bytes([bytes[32], bytes[33]]);
    assert_eq!(count_field, 4 + 1 + 0x3FFF);
    // The largest-frame field is the largest frame index plus one.
    let maxk = u16::from_le_bytes([bytes[34], bytes[35]]);
    assert_eq!(maxk, 11);
    // The tag stream starts at 36: Empty, Pose, Linear, Smooth.
    assert_eq!(bytes[36], 0b11_10_01_00);
}

#[test]
fn value_arrays_are_aligned() {
    let m = sample_motion();
    let bytes = m.write().unwrap();
    let set_off = u32::from_le_bytes([bytes[8], bytes[9], bytes[10], bytes[11]]) as usize;
    // First channel is Empty (0 bytes), second a pose (4 bytes); the
    // linear channel starts after them.
    let lin_start = set_off + 4;
    let count = u16::from_le_bytes([bytes[lin_start], bytes[lin_start + 1]]) as usize;
    assert_eq!(count, 2);
    let frames_end = lin_start + 2 + 2 * count;
    let pad = frames_end % 4;
    let values_at = frames_end + pad;
    // The value array begins at a 4-byte-aligned absolute position.
    assert_eq!(values_at % 4, 0);
    let v0 = u32::from_le_bytes([
        bytes[values_at],
        bytes[values_at + 1],
        bytes[values_at + 2],
        bytes[values_at + 3],
    ]);
    assert_eq!(f32::from_bits(v0), 0.0);
    let v1 = u32::from_le_bytes([
        bytes[values_at + 4],
        bytes[values_at + 5],
        bytes[values_at + 6],
        bytes[values_at + 7],
    ]);
    assert_eq!(f32::from_bits(v1), 5.0);
}

#[test]
fn packed_tags_and_max_keyframe() {
    let m = sample_motion();
    assert_eq!(m.get_bits(), vec![0b11_10_01_00u8]);
    assert_eq!(m.get_max_keyframe(), 10);
}

#[test]
fn parse_rejects_truncated_buffers() {
    assert!(Motion::parse(&[]).is_err());
    assert!(Motion::parse(&[32, 0, 0, 0]).is_err());
    let m = sample_motion();
    let bytes = m.write().unwrap();
    // Cutting the payload off makes a channel read run out of bytes.
    let set_off = u32::from_le_bytes([bytes[8], bytes[9], bytes[10], bytes[11]]) as usize;
    assert!(Motion::parse(&bytes[..set_off + 2]).is_err());
}

#[test]
fn write_rejects_too_many_channels() {
    let m = Motion { sets: vec![FrameData::Empty; 0x3FFE], bones: vec![] };
    assert_eq!(m.write(), Err(WriteError::TooManyChannels));
}

#[test]
fn write_rejects_frame_index_overflow() {
    let m = Motion {
        sets: vec![FrameData::Linear(vec![Keyframe { frame: 0xFFFF, value: 0 }])],
        bones: vec![],
    };
    assert_eq!(m.write(), Err(WriteError::FrameIndexOverflow));
}

#[test]
fn write_rejects_wide_bone_index() {
    let m = Motion { sets: vec![FrameData::Empty], bones: vec![0x10000] };
    assert_eq!(m.write(), Err(WriteError::BoneIndexOverflow));
}

#[test]
fn bone_array_keeps_first_zero() {
    // A first zero is a true bone index; the second terminates.
    let m = Motion {
        sets: vec![FrameData::Empty, FrameData::Empty],
        bones: vec![7, 0, 9],
    };
    let bytes = m.write().unwrap();
    let back = Motion::parse(&bytes).unwrap();
    assert_eq!(back.bones, vec![7, 0, 9]);
}

#[test]
fn many_until_stops_at_sentinel() {
    // Values 1, 5, then the sentinel 0, then unread data.
    let bytes = [1u8, 0, 5, 0, 0, 0, 9, 0];
    let (vals, end) = many_until(&bytes, 0, 0).unwrap();
    assert_eq!(vals, vec![1, 5]);
    assert_eq!(end, 6);
}

#[test]
fn many_until_nth_keeps_early_sentinels() {
    // 1, 0 (kept), 5, then the second 0 terminates.
    let bytes = [1u8, 0, 0, 0, 5, 0, 0, 0, 7, 0];
    let (vals, end) = many_until_nth(&bytes, 0, 0, 1).unwrap();
    assert_eq!(vals, vec![1, 0, 5]);
    assert_eq!(end, 8);
}

#[test]
fn many_until_fails_without_sentinel() {
    let bytes = [1u8, 0, 5, 0];
    assert!(many_until(&bytes, 0, 0).is_none());
    assert_eq!(many_until(&bytes, 0, 5), Some((vec![1], 4)));
}
