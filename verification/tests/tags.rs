use mot::tags::SetType;
use mot::tags::pack_tags;
use mot::tags::unpack_tags;
use mot::tags::unpack_tags_legacy;

#[test]
fn set_user_read() {
    let i = [0b11_10_01_00u8, 0b11_00_01_11];
    let val = unpack_tags(&i, 8).unwrap();
    assert_eq!(
        val,
        vec![
            SetType::Empty,
            SetType::Pose,
            SetType::Linear,
            SetType::Smooth,
            SetType::Smooth,
            SetType::Pose,
            SetType::Empty,
            SetType::Smooth,
        ]
    );
}

#[test]
fn tag_stream_single_byte() {
    // Smooth=3, Linear=2, Constant=1, Empty=0, packed least-significant
    // pair first: one byte 0b11_10_01_00.
    let tags = vec![
        SetType::Empty,
        SetType::Pose,
        SetType::Linear,
        SetType::Smooth,
    ];
    let packed = pack_tags(&tags);
    assert_eq!(packed, vec![0b11_10_01_00u8]);
    let back = unpack_tags(&packed, 4).unwrap();
    assert_eq!(back, tags);
}

#[test]
fn tag_readers_agree() {
    let bytes = [0xE4u8, 0xC7, 0x12, 0x00, 0x9B, 0x3D];
    for count in 0..=24 {
        let legacy = unpack_tags_legacy(&bytes, count).unwrap();
        let bytewise = unpack_tags(&bytes, count).unwrap();
        assert_eq!(legacy, bytewise);
    }
}

#[test]
fn tag_readers_agree_partial_group() {
    // The legacy cursor loads a full 16-bit group for a started run of
    // eight tags; the byte-wise reader needs only the bytes its tags sit
    // in. Both must yield the same tags where both can read.
    let bytes = [0b01_10_11_00u8, 0b00_00_00_01];
    let legacy = unpack_tags_legacy(&bytes, 5).unwrap();
    let bytewise = unpack_tags(&bytes, 5).unwrap();
    assert_eq!(legacy, bytewise);
    assert_eq!(
        bytewise,
        vec![
            SetType::Empty,
            SetType::Smooth,
            SetType::Linear,
            SetType::Pose,
            SetType::Pose,
        ]
    );
}

#[test]
fn pack_unpack_roundtrip() {
    let variants = [
        SetType::Empty,
        SetType::Pose,
        SetType::Linear,
        SetType::Smooth,
    ];
    for len in 0..10usize {
        let mut tags: Vec<SetType> = Vec::new();
        for k in 0..len {
            tags.push(variants[(k * 7 + 3) % 4]);
        }
        let packed = pack_tags(&tags);
        assert_eq!(packed.len(), (len + 3) / 4);
        let back = unpack_tags(&packed, len).unwrap();
        assert_eq!(back, tags);
    }
}

#[test]
fn unpack_too_short() {
    let bytes = [0xFFu8];
    assert!(unpack_tags(&bytes, 5).is_none());
    assert!(unpack_tags_legacy(&bytes, 1).is_none());
}

#[test]
fn from_bits_rejects_wide_values() {
    assert_eq!(SetType::from_bits(0), Some(SetType::Empty));
    assert_eq!(SetType::from_bits(1), Some(SetType::Pose));
    assert_eq!(SetType::from_bits(2), Some(SetType::Linear));
    assert_eq!(SetType::from_bits(3), Some(SetType::Smooth));
    assert_eq!(SetType::from_bits(4), None);
}
